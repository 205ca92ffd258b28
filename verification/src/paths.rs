use vstd::prelude::*;

verus! {

/// The byte that separates path components.
pub const SEPARATOR: u8 = 47;

/// `q` denotes `p` itself or a location strictly below `p`: either the two
/// paths are equal, or `q` extends `p` with a separator and more bytes.
pub open spec fn is_descendant(q: Seq<u8>, p: Seq<u8>) -> bool {
    q == p || (q.len() > p.len() && q.subrange(0, p.len() as int) == p && q[p.len() as int]
        == SEPARATOR)
}

/// The path of a child `name` inside directory `dir`.
pub open spec fn child_path(dir: Seq<u8>, name: Seq<u8>) -> Seq<u8> {
    dir + seq![SEPARATOR] + name
}

/// The views of a sequence of byte vectors.
pub open spec fn byte_views(s: Seq<Vec<u8>>) -> Seq<Seq<u8>> {
    s.map_values(|v: Vec<u8>| v@)
}

/// Copies a byte string.
pub fn copy_bytes(src: &Vec<u8>) -> (r: Vec<u8>)
    ensures
        r@ == src@,
{
    let mut r: Vec<u8> = Vec::new();
    proof {
        assert(r@ =~= src@.subrange(0, 0));
    }
    let mut i: usize = 0;
    while i < src.len()
        invariant
            i <= src.len(),
            r@ == src@.subrange(0, i as int),
        decreases src.len() - i,
    {
        r.push(src[i]);
        proof {
            assert(r@ =~= src@.subrange(0, i + 1 as int));
        }
        i += 1;
    }
    proof {
        assert(r@ =~= src@);
    }
    r
}

/// Compares two byte strings for equality.
pub fn bytes_eq(a: &Vec<u8>, b: &Vec<u8>) -> (r: bool)
    ensures
        r == (a@ == b@),
{
    if a.len() != b.len() {
        return false;
    }
    let mut i: usize = 0;
    while i < a.len()
        invariant
            i <= a.len(),
            a@.len() == b@.len(),
            forall|k: int| 0 <= k < i ==> a@[k] == b@[k],
        decreases a.len() - i,
    {
        if a[i] != b[i] {
            return false;
        }
        i += 1;
    }
    proof {
        assert(a@ =~= b@);
    }
    true
}

/// Decides whether `q` is `p` or lies below `p`.
pub fn check_descendant(q: &Vec<u8>, p: &Vec<u8>) -> (r: bool)
    ensures
        r == is_descendant(q@, p@),
{
    if q.len() < p.len() {
        return false;
    }
    let mut i: usize = 0;
    while i < p.len()
        invariant
            i <= p.len(),
            p.len() <= q.len(),
            forall|k: int| 0 <= k < i ==> q@[k] == p@[k],
        decreases p.len() - i,
    {
        if q[i] != p[i] {
            proof {
                assert(q@ != p@);
                assert(q@.subrange(0, p@.len() as int)[i as int] == q@[i as int]);
            }
            return false;
        }
        i += 1;
    }
    if q.len() == p.len() {
        proof {
            assert(q@ =~= p@);
        }
        true
    } else {
        proof {
            assert(q@.subrange(0, p@.len() as int) =~= p@);
        }
        let r = q[p.len()] == SEPARATOR;
        r
    }
}

/// Builds the path of `name` inside `dir`.
pub fn join_child(dir: &Vec<u8>, name: &Vec<u8>) -> (r: Vec<u8>)
    ensures
        r@ == child_path(dir@, name@),
{
    let mut r = copy_bytes(dir);
    r.push(SEPARATOR);
    proof {
        assert(r@ =~= dir@ + seq![SEPARATOR] + name@.subrange(0, 0));
    }
    let mut i: usize = 0;
    while i < name.len()
        invariant
            i <= name.len(),
            r@ == dir@ + seq![SEPARATOR] + name@.subrange(0, i as int),
        decreases name.len() - i,
    {
        r.push(name[i]);
        proof {
            assert(r@ =~= dir@ + seq![SEPARATOR] + name@.subrange(0, i + 1 as int));
        }
        i += 1;
    }
    proof {
        assert(r@ =~= child_path(dir@, name@));
    }
    r
}

} // verus!

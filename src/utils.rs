use vstd::prelude::*;

verus! {

/// The characters of `s`, in order.
pub fn chars_of(s: &str) -> (r: Vec<char>)
    ensures
        r@ == s@,
{
    let mut r: Vec<char> = Vec::new();
    for c in it: s.chars()
        invariant
            it.seq() == s@,
            r@ == it.seq().take(it.index() as int),
    {
        r.push(c);
    }
    r
}

/// Whether `ns` occurs in `s` starting at position `i`.
pub open spec fn occurs_at(s: Seq<char>, ns: Seq<char>, i: int) -> bool {
    0 <= i && i + ns.len() <= s.len() && s.subrange(i, i + ns.len()) == ns
}

/// Whether `b` occurs in `a` at position `left`.
fn matches_at(a: &Vec<char>, b: &Vec<char>, left: usize) -> (r: bool)
    requires
        left + b@.len() <= a@.len(),
    ensures
        r == (a@.subrange(left as int, left + b@.len()) == b@),
{
    let n = a.len();
    let mut k: usize = 0;
    while k < b.len()
        invariant
            n == a@.len(),
            left + b@.len() <= a@.len(),
            k <= b@.len(),
            forall|m: int| 0 <= m < k ==> a@[left + m] == b@[m],
        decreases b@.len() - k,
    {
        if a[left + k] != b[k] {
            assert(a@.subrange(left as int, left + b@.len())[k as int] != b@[k as int]);
            return false;
        }
        k = k + 1;
    }
    assert(a@.subrange(left as int, left + b@.len()) =~= b@);
    true
}

/// The first position at which the nonempty string `ns` occurs in `s`, counted
/// in characters; `None` if it does not occur or is empty.
pub fn find(s: &str, ns: &str) -> (r: Option<usize>)
    ensures
        match r {
            Some(i) => ns@.len() > 0 && occurs_at(s@, ns@, i as int) && forall|j: int|
                0 <= j < i ==> !occurs_at(s@, ns@, j),
            None => ns@.len() == 0 || forall|j: int| !occurs_at(s@, ns@, j),
        },
{
    let a = chars_of(s);
    let b = chars_of(ns);
    if b.len() == 0 || a.len() == 0 || b.len() > a.len() {
        return None;
    }
    let mut left: usize = 0;
    let last = a.len() - b.len();
    while left <= last
        invariant
            a@ == s@,
            b@ == ns@,
            0 < b@.len() <= a@.len(),
            last == a@.len() - b@.len(),
            last < usize::MAX,
            left <= last + 1,
            forall|j: int| 0 <= j < left ==> !occurs_at(s@, ns@, j),
        decreases a@.len() - left,
    {
        if matches_at(&a, &b, left) {
            return Some(left);
        }
        left = left + 1;
    }
    None
}

} // verus!

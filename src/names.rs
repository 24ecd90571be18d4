use vstd::prelude::*;

verus! {

/// Position of the last '.' in `s`, or -1 when there is none.
pub open spec fn last_dot(s: Seq<char>) -> int
    decreases s.len(),
{
    if s.len() == 0 {
        -1
    } else if s.last() == '.' {
        s.len() - 1
    } else {
        last_dot(s.drop_last())
    }
}

/// The extension of a file name: what follows its last '.', provided that
/// dot is not the name's first character.
pub open spec fn extension(name: Seq<char>) -> Option<Seq<char>> {
    let d = last_dot(name);
    if d > 0 {
        Some(name.subrange(d + 1, name.len() as int))
    } else {
        None
    }
}

/// A character's code with ASCII upper-case letters mapped to lower case.
pub open spec fn folded(c: char) -> u32 {
    if 65 <= (c as u32) <= 90 {
        (c as u32 + 32) as u32
    } else {
        c as u32
    }
}

/// Equality of two strings up to ASCII case.
pub open spec fn same_ignoring_ascii_case(a: Seq<char>, b: Seq<char>) -> bool {
    a.len() == b.len() && forall|i: int| 0 <= i < a.len() ==> folded(#[trigger] a[i]) == folded(b[i])
}

/// Whether a file name has the extension `jpg` or `jpeg`, in any ASCII case.
pub open spec fn is_jpg_name(name: Seq<char>) -> bool {
    match extension(name) {
        Some(e) => same_ignoring_ascii_case(e, seq!['j', 'p', 'g'])
            || same_ignoring_ascii_case(e, seq!['j', 'p', 'e', 'g']),
        None => false,
    }
}

proof fn lemma_last_dot_range(s: Seq<char>)
    ensures
        -1 <= last_dot(s) < s.len(),
        last_dot(s) >= 0 ==> s[last_dot(s)] == '.',
    decreases s.len(),
{
    if s.len() > 0 && s.last() != '.' {
        lemma_last_dot_range(s.drop_last());
    }
}

fn fold_char(c: char) -> (r: u32)
    ensures
        r == folded(c),
{
    let u = c as u32;
    if 65 <= u && u <= 90 {
        u + 32
    } else {
        u
    }
}

/// Whether the characters of `name` from `start` on equal `word` up to
/// ASCII case.
fn tail_matches(name: &str, n: usize, start: usize, word: &Vec<char>) -> (r: bool)
    requires
        n == name@.len(),
        start <= n,
    ensures
        r == same_ignoring_ascii_case(name@.subrange(start as int, n as int), word@),
{
    let ghost tail = name@.subrange(start as int, n as int);
    if n - start != word.len() {
        return false;
    }
    let mut k: usize = 0;
    while k < word.len()
        invariant
            n == name@.len(),
            start <= n,
            n - start == word@.len(),
            tail == name@.subrange(start as int, n as int),
            k <= word@.len(),
            forall|m: int| 0 <= m < k ==> folded(#[trigger] tail[m]) == folded(word@[m]),
        decreases word@.len() - k,
    {
        if fold_char(name.get_char(start + k)) != fold_char(word[k]) {
            assert(folded(tail[k as int]) != folded(word@[k as int]));
            return false;
        }
        k = k + 1;
    }
    true
}

/// Whether the file name `name` has the extension `jpg` or `jpeg`, ignoring
/// ASCII case.
pub fn is_jpg(name: &str) -> (r: bool)
    ensures
        r == is_jpg_name(name@),
{
    let n = name.unicode_len();
    let mut i: usize = n;
    assert(name@.subrange(0, n as int) =~= name@);
    while i > 0 && name.get_char(i - 1) != '.'
        invariant
            n == name@.len(),
            i <= n,
            last_dot(name@) == last_dot(name@.subrange(0, i as int)),
        decreases i,
    {
        assert(name@.subrange(0, i as int).drop_last() =~= name@.subrange(0, i - 1));
        i = i - 1;
    }
    proof {
        if i > 0 {
            assert(name@.subrange(0, i as int).last() == '.');
        } else {
            assert(name@.subrange(0, 0) =~= Seq::<char>::empty());
        }
        lemma_last_dot_range(name@);
    }
    if i <= 1 {
        return false;
    }
    let jpg = vec!['j', 'p', 'g'];
    let jpeg = vec!['j', 'p', 'e', 'g'];
    proof {
        assert(jpg@ =~= seq!['j', 'p', 'g']);
        assert(jpeg@ =~= seq!['j', 'p', 'e', 'g']);
    }
    tail_matches(name, n, i, &jpg) || tail_matches(name, n, i, &jpeg)
}

} // verus!

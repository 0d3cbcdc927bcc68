//! Paths: comparing them, and splitting them into parent and last segment.
//!
//! Paths are handled character by character. Comparing characters by
//! code point orders strings exactly as comparing their UTF-8 bytes does.

use vstd::prelude::*;
use crate::text::chars_of;

verus! {

/// `s` without its trailing slashes.
pub open spec fn trim_slashes(s: Seq<char>) -> Seq<char>
    decreases s.len(),
{
    if s.len() > 0 && s.last() == '/' {
        trim_slashes(s.drop_last())
    } else {
        s
    }
}

/// Position of the last slash in `s`.
pub open spec fn last_slash(s: Seq<char>) -> Option<int>
    decreases s.len(),
{
    if s.len() == 0 {
        None
    } else if s.last() == '/' {
        Some(s.len() - 1)
    } else {
        last_slash(s.drop_last())
    }
}

/// The directory holding `p`: everything before the last slash once the
/// trailing slashes are gone, or the root.
pub open spec fn spec_parent_of(p: Seq<char>) -> Seq<char> {
    match last_slash(trim_slashes(p)) {
        Some(i) => if i == 0 {
            seq!['/']
        } else {
            p.subrange(0, i)
        },
        None => seq!['/'],
    }
}

/// The last segment of `p`: what follows the last slash once the trailing
/// slashes are gone.
pub open spec fn spec_last_segment(p: Seq<char>) -> Seq<char> {
    let t = trim_slashes(p);
    match last_slash(t) {
        Some(i) => t.subrange(i + 1, t.len() as int),
        None => t,
    }
}

/// Lexicographic order by code point.
pub open spec fn lex_lt(a: Seq<char>, b: Seq<char>) -> bool
    decreases a.len(),
{
    if a.len() == 0 {
        b.len() > 0
    } else if b.len() == 0 {
        false
    } else if a[0] != b[0] {
        a[0] < b[0]
    } else {
        lex_lt(a.drop_first(), b.drop_first())
    }
}

/// Whether `s` is strictly increasing.
pub open spec fn strictly_sorted(s: Seq<Seq<char>>) -> bool {
    forall|i: int, j: int| 0 <= i < j < s.len() ==> lex_lt(#[trigger] s[i], #[trigger] s[j])
}

/// No sequence precedes itself.
pub proof fn lemma_lex_irreflexive(a: Seq<char>)
    ensures
        !lex_lt(a, a),
    decreases a.len(),
{
    if a.len() > 0 {
        lemma_lex_irreflexive(a.drop_first());
    }
}

/// The order is transitive.
pub proof fn lemma_lex_transitive(a: Seq<char>, b: Seq<char>, c: Seq<char>)
    requires
        lex_lt(a, b),
        lex_lt(b, c),
    ensures
        lex_lt(a, c),
    decreases a.len(),
{
    if a.len() > 0 && b.len() > 0 && c.len() > 0 && a[0] == b[0] && b[0] == c[0] {
        lemma_lex_transitive(a.drop_first(), b.drop_first(), c.drop_first());
    }
}

/// Two different sequences are ordered one way or the other.
pub proof fn lemma_lex_total(a: Seq<char>, b: Seq<char>)
    requires
        a != b,
    ensures
        lex_lt(a, b) || lex_lt(b, a),
    decreases a.len(),
{
    if a.len() > 0 && b.len() > 0 {
        if a[0] == b[0] {
            if a.drop_first() == b.drop_first() {
                assert(a =~= seq![a[0]] + a.drop_first());
                assert(b =~= seq![b[0]] + b.drop_first());
            }
            lemma_lex_total(a.drop_first(), b.drop_first());
        }
    } else if a.len() == 0 && b.len() == 0 {
        assert(a =~= b);
    }
}

/// Whether `a` comes before `b` in lexicographic order by code point.
pub fn path_before(a: &str, b: &str) -> (r: bool)
    ensures
        r == lex_lt(a@, b@),
{
    let x = chars_of(a);
    let y = chars_of(b);
    let mut i: usize = 0;
    assert(x@.subrange(0, x@.len() as int) =~= x@);
    assert(y@.subrange(0, y@.len() as int) =~= y@);
    while i < x.len() && i < y.len()
        invariant
            i <= x@.len(),
            i <= y@.len(),
            lex_lt(a@, b@) == lex_lt(x@.subrange(i as int, x@.len() as int), y@.subrange(
                i as int,
                y@.len() as int,
            )),
            x@ == a@,
            y@ == b@,
        decreases x.len() - i,
    {
        let ghost xs = x@.subrange(i as int, x@.len() as int);
        let ghost ys = y@.subrange(i as int, y@.len() as int);
        if x[i] != y[i] {
            assert(xs[0] == x@[i as int] && ys[0] == y@[i as int]);
            return x[i] < y[i];
        }
        assert(xs.drop_first() =~= x@.subrange(i + 1, x@.len() as int));
        assert(ys.drop_first() =~= y@.subrange(i + 1, y@.len() as int));
        i = i + 1;
    }
    i < y.len()
}

/// Length of `path` without its trailing slashes.
fn trimmed_len(path: &Vec<char>) -> (r: usize)
    ensures
        r <= path@.len(),
        trim_slashes(path@) == path@.subrange(0, r as int),
{
    let mut end = path.len();
    assert(path@.subrange(0, end as int) =~= path@);
    while end > 0 && path[end - 1] == '/'
        invariant
            end <= path@.len(),
            trim_slashes(path@) == trim_slashes(path@.subrange(0, end as int)),
        decreases end,
    {
        assert(path@.subrange(0, end as int).drop_last() =~= path@.subrange(0, end - 1));
        end = end - 1;
    }
    end
}

/// Position of the last slash in `path[..end]`.
fn last_slash_before(path: &Vec<char>, end: usize) -> (r: Option<usize>)
    requires
        end <= path@.len(),
    ensures
        r == match last_slash(path@.subrange(0, end as int)) {
            Some(i) => Some(i as usize),
            None => None::<usize>,
        },
{
    let mut k = end;
    while k > 0
        invariant
            k <= end <= path@.len(),
            last_slash(path@.subrange(0, end as int)) == last_slash(path@.subrange(0, k as int)),
        decreases k,
    {
        if path[k - 1] == '/' {
            return Some(k - 1);
        }
        assert(path@.subrange(0, k as int).drop_last() =~= path@.subrange(0, k - 1));
        k = k - 1;
    }
    None
}

/// The directory holding `path`: exactly [`spec_parent_of`].
pub fn parent_of(path: &str) -> (r: String)
    ensures
        r@ == spec_parent_of(path@),
{
    proof {
        reveal_strlit("/");
    }
    let chars = chars_of(path);
    let end = trimmed_len(&chars);
    let ghost trimmed = path@.subrange(0, end as int);
    proof {
        lemma_last_slash_bound(trimmed);
    }
    match last_slash_before(&chars, end) {
        Some(0) => {
            let r = String::from_str("/");
            assert(r@ =~= seq!['/']);
            r
        },
        Some(index) => {
            let r = String::from_str(path.substring_char(0, index));
            assert(last_slash(trim_slashes(path@)) == Some(index as int));
            r
        },
        None => {
            let r = String::from_str("/");
            assert(r@ =~= seq!['/']);
            r
        },
    }
}

/// The last slash lies inside the sequence.
proof fn lemma_last_slash_bound(s: Seq<char>)
    ensures
        last_slash(s) matches Some(i) ==> 0 <= i < s.len() && s[i] == '/',
    decreases s.len(),
{
    if s.len() > 0 && s.last() != '/' {
        lemma_last_slash_bound(s.drop_last());
    }
}

/// The last segment of `path`: exactly [`spec_last_segment`].
pub fn last_segment(path: &str) -> (r: String)
    ensures
        r@ == spec_last_segment(path@),
{
    let chars = chars_of(path);
    let end = trimmed_len(&chars);
    proof {
        lemma_last_slash_bound(path@.subrange(0, end as int));
    }
    match last_slash_before(&chars, end) {
        Some(index) => {
            let r = String::from_str(path.substring_char(index + 1, end));
            proof {
                assert(r@ =~= path@.subrange(0, end as int).subrange(
                    index + 1,
                    end as int,
                ));
            }
            r
        },
        None => String::from_str(path.substring_char(0, end)),
    }
}

} // verus!

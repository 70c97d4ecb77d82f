use vstd::prelude::*;
use vstd::string::StrSliceExecFns;

verus! {

/// Whether `c` has the Unicode White_Space property.
pub open spec fn is_white_space(c: char) -> bool {
    let u = c as u32;
    ||| 0x09 <= u <= 0x0d
    ||| u == 0x20
    ||| u == 0x85
    ||| u == 0xa0
    ||| u == 0x1680
    ||| 0x2000 <= u <= 0x200a
    ||| u == 0x2028
    ||| u == 0x2029
    ||| u == 0x202f
    ||| u == 0x205f
    ||| u == 0x3000
}

/// `t` is `s` with its leading and trailing white space removed.
pub open spec fn trims_to(s: Seq<char>, t: Seq<char>) -> bool {
    exists|a: int, b: int|
        {
            &&& 0 <= a <= b <= s.len()
            &&& t == s.subrange(a, b)
            &&& forall|k: int| 0 <= k < a ==> is_white_space(#[trigger] s[k])
            &&& forall|k: int| b <= k < s.len() ==> is_white_space(#[trigger] s[k])
            &&& a < b ==> !is_white_space(s[a]) && !is_white_space(s[b - 1])
        }
}

/// `str::trim`: the slice of `s` without its leading and trailing white
/// space, white space being the characters with the Unicode White_Space
/// property.
#[verifier::external_body]
fn trim(s: &str) -> (t: &str)
    ensures
        trims_to(s@, t@),
{
    s.trim()
}

/// An answer that accepts: a single `y` or `Y`, with nothing but white space
/// around it.
pub open spec fn accepts(answer: Seq<char>) -> bool {
    exists|i: int|
        {
            &&& 0 <= i < answer.len()
            &&& (answer[i] == 'y' || answer[i] == 'Y')
            &&& forall|k: int| 0 <= k < answer.len() && k != i ==> is_white_space(#[trigger] answer[k])
        }
}

/// Whether a reply to the confirmation prompt says yes: once trimmed, it is
/// exactly `y` or `Y`. Anything else, the empty reply included, says no.
pub fn is_yes(answer: &str) -> (r: bool)
    ensures
        r == accepts(answer@),
{
    let t = trim(answer);
    let ghost s = answer@;
    let ghost (a, b) = choose|a: int, b: int|
        {
            &&& 0 <= a <= b <= s.len()
            &&& t@ == s.subrange(a, b)
            &&& forall|k: int| 0 <= k < a ==> is_white_space(#[trigger] s[k])
            &&& forall|k: int| b <= k < s.len() ==> is_white_space(#[trigger] s[k])
            &&& a < b ==> !is_white_space(s[a]) && !is_white_space(s[b - 1])
        };
    let r = if t.unicode_len() == 1 {
        let c = t.get_char(0);
        c == 'y' || c == 'Y'
    } else {
        false
    };
    proof {
        assert(!is_white_space('y') && !is_white_space('Y'));
        if r {
            assert(s[a] == t@[0]);
            assert(forall|k: int| 0 <= k < s.len() && k != a ==> is_white_space(#[trigger] s[k]));
        } else if accepts(s) {
            let i = choose|i: int|
                {
                    &&& 0 <= i < s.len()
                    &&& (s[i] == 'y' || s[i] == 'Y')
                    &&& forall|k: int| 0 <= k < s.len() && k != i ==> is_white_space(#[trigger] s[k])
                };
            assert(a <= i < b);
            assert(a == i);
            assert(b - 1 == i);
            assert(t@.len() == 1);
            assert(t@[0] == s[i]);
        }
    }
    r
}


/// A reply says yes exactly when, trimmed of white space at both ends, it is
/// `y` or `Y`: nothing else, the empty reply and `yes` included, says yes.
pub proof fn lemma_yes_is_trimmed_y(answer: Seq<char>)
    ensures
        accepts(answer) <==> trims_to(answer, seq!['y']) || trims_to(answer, seq!['Y']),
{
    let s = answer;
    if accepts(s) {
        let i = choose|i: int|
            {
                &&& 0 <= i < s.len()
                &&& (s[i] == 'y' || s[i] == 'Y')
                &&& forall|k: int| 0 <= k < s.len() && k != i ==> is_white_space(#[trigger] s[k])
            };
        assert(!is_white_space('y') && !is_white_space('Y'));
        assert(s.subrange(i, i + 1) =~= seq![s[i]]);
        assert(forall|k: int| 0 <= k < i ==> is_white_space(#[trigger] s[k]));
        assert(forall|k: int| i + 1 <= k < s.len() ==> is_white_space(#[trigger] s[k]));
        if s[i] == 'y' {
            assert(trims_to(s, seq!['y']));
        } else {
            assert(trims_to(s, seq!['Y']));
        }
    }
    if trims_to(s, seq!['y']) || trims_to(s, seq!['Y']) {
        let t: Seq<char> = if trims_to(s, seq!['y']) {
            seq!['y']
        } else {
            seq!['Y']
        };
        let (a, b) = choose|a: int, b: int|
            {
                &&& 0 <= a <= b <= s.len()
                &&& t == s.subrange(a, b)
                &&& forall|k: int| 0 <= k < a ==> is_white_space(#[trigger] s[k])
                &&& forall|k: int| b <= k < s.len() ==> is_white_space(#[trigger] s[k])
                &&& a < b ==> !is_white_space(s[a]) && !is_white_space(s[b - 1])
            };
        assert(s.subrange(a, b).len() == 1);
        assert(s[a] == t[0]);
        assert(forall|k: int| 0 <= k < s.len() && k != a ==> is_white_space(#[trigger] s[k]));
        assert(accepts(s));
    }
}

} // verus!

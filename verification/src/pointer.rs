//! JSON pointers: paths into a document, written as text.

use vstd::prelude::*;
use vstd::string::StrSliceExecFns;
use crate::json::{lemma_array_view, lemma_object_view, members_of, Json, JsonValue};

verus! {

/// The reference tokens of a pointer in their escaped form: the pieces
/// between the slashes of the text after its first character.
pub open spec fn raw_tokens(text: Seq<char>, n: nat) -> Seq<Seq<char>>
    decreases n,
{
    if n == 0 || n > text.len() {
        seq![Seq::empty()]
    } else {
        let before = raw_tokens(text, (n - 1) as nat);
        let c = text[n - 1];
        if c == '/' {
            before.push(Seq::empty())
        } else {
            before.update(before.len() - 1, before.last().push(c))
        }
    }
}

/// A reference token with its escapes resolved, reading the first `n`
/// characters from the left: `~1` stands for a slash and `~0` for a tilde.
/// `pending` says whether the character before was a tilde that has not been
/// written yet.
pub open spec fn unescaped(token: Seq<char>, n: nat) -> (Seq<char>, bool)
    decreases n,
{
    if n == 0 || n > token.len() {
        (Seq::empty(), false)
    } else {
        let before = unescaped(token, (n - 1) as nat);
        let c = token[n - 1];
        if before.1 {
            if c == '1' {
                (before.0.push('/'), false)
            } else if c == '0' {
                (before.0.push('~'), false)
            } else if c == '~' {
                (before.0.push('~'), true)
            } else {
                (before.0.push('~').push(c), false)
            }
        } else if c == '~' {
            (before.0, true)
        } else {
            (before.0.push(c), false)
        }
    }
}

/// A reference token with its escapes resolved.
pub open spec fn token_text(token: Seq<char>) -> Seq<char> {
    let r = unescaped(token, token.len());
    if r.1 {
        r.0.push('~')
    } else {
        r.0
    }
}

/// The position in an array that a reference token names: a decimal number
/// without sign and without leading zeros that fits `usize`.
pub open spec fn token_index(token: Seq<char>) -> Option<nat> {
    if token.len() == 0 || (token[0] == '0' && token.len() != 1) || !all_digits(token)
        || digits_value(token, token.len()) > usize::MAX {
        None
    } else {
        Some(digits_value(token, token.len()))
    }
}

/// Whether every character is a decimal digit.
pub open spec fn all_digits(token: Seq<char>) -> bool {
    forall|i: int| 0 <= i < token.len() ==> '0' <= #[trigger] token[i] <= '9'
}

/// The number that the first `n` digits denote.
pub open spec fn digits_value(token: Seq<char>, n: nat) -> nat
    decreases n,
{
    if n == 0 || n > token.len() {
        0
    } else {
        digits_value(token, (n - 1) as nat) * 10 + (token[n - 1] as nat - '0' as nat) as nat
    }
}

/// What a document holds under one reference token: the member of that name
/// of an object, the item at that position of an array.
pub open spec fn step_into(v: JsonValue, token: Seq<char>) -> Option<JsonValue> {
    match v {
        JsonValue::Object(_) => v.member(token),
        JsonValue::Array(items) => match token_index(token) {
            Some(i) => if i < items.len() {
                Some(items[i as int])
            } else {
                None
            },
            None => None,
        },
        _ => None,
    }
}

/// What a document holds at the end of the first `n` of a list of reference
/// tokens.
pub open spec fn walk(v: JsonValue, tokens: Seq<Seq<char>>, n: nat) -> Option<JsonValue>
    decreases n,
{
    if n == 0 || n > tokens.len() {
        Some(v)
    } else {
        match walk(v, tokens, (n - 1) as nat) {
            Some(x) => step_into(x, token_text(tokens[n - 1])),
            None => None,
        }
    }
}

/// What a document holds at a pointer: the document itself for the empty
/// pointer; for a pointer that begins with a slash, what the walk along its
/// reference tokens ends at; nothing for any other text.
pub open spec fn resolve(v: JsonValue, pointer: Seq<char>) -> Option<JsonValue> {
    if pointer.len() == 0 {
        Some(v)
    } else if pointer[0] != '/' {
        None
    } else {
        let tokens = raw_tokens(pointer.skip(1), (pointer.len() - 1) as nat);
        walk(v, tokens, tokens.len())
    }
}

/// Splits the text of a pointer after its first character into reference
/// tokens, escapes resolved.
pub fn split_tokens(pointer: &str) -> (r: Vec<Vec<char>>)
    requires
        pointer@.len() > 0,
    ensures
        r@.len() == raw_tokens(pointer@.skip(1), (pointer@.len() - 1) as nat).len(),
        forall|k: int|
            0 <= k < r@.len() ==> (#[trigger] r@[k])@ == token_text(
                raw_tokens(pointer@.skip(1), (pointer@.len() - 1) as nat)[k],
            ),
{
    let n = pointer.unicode_len();
    let ghost text = pointer@.skip(1);
    let mut done: Vec<Vec<char>> = Vec::new();
    let mut current: Vec<char> = Vec::new();
    let mut pending = false;
    let ghost mut raw: Seq<char> = Seq::empty();
    let mut i: usize = 1;
    assert(unescaped(raw, 0) == (Seq::<char>::empty(), false));
    while i < n
        invariant
            1 <= i <= n,
            n == pointer@.len(),
            text == pointer@.skip(1),
            raw_tokens(text, (i - 1) as nat).len() == done@.len() + 1,
            raw_tokens(text, (i - 1) as nat).last() == raw,
            forall|k: int|
                0 <= k < done@.len() ==> (#[trigger] done@[k])@ == token_text(
                    raw_tokens(text, (i - 1) as nat)[k],
                ),
            unescaped(raw, raw.len()) == (current@, pending),
        decreases n - i,
    {
        let c = pointer.get_char(i);
        assert(text[i - 1] == c);
        let ghost before = raw_tokens(text, (i - 1) as nat);
        if c == '/' {
            if pending {
                current.push('~');
            }
            done.push(current);
            current = Vec::new();
            pending = false;
            proof {
                raw = Seq::empty();
                assert(unescaped(raw, 0) == (Seq::<char>::empty(), false));
                let after = raw_tokens(text, i as nat);
                assert(after == before.push(Seq::empty()));
                assert forall|k: int| 0 <= k < done@.len() implies (#[trigger] done@[k])@
                    == token_text(after[k]) by {
                    assert(after[k] == before[k]);
                }
            }
        } else {
            proof {
                let grown = raw.push(c);
                lemma_unescaped_prefix(raw, grown, raw.len());
                assert(grown.len() == raw.len() + 1);
                assert(grown[grown.len() - 1] == c);
                raw = grown;
                let after = raw_tokens(text, i as nat);
                assert(after == before.update(before.len() - 1, before.last().push(c)));
                assert forall|k: int| 0 <= k < done@.len() implies (#[trigger] done@[k])@
                    == token_text(after[k]) by {
                    assert(after[k] == before[k]);
                }
            }
            if pending {
                if c == '1' {
                    current.push('/');
                    pending = false;
                } else if c == '0' {
                    current.push('~');
                    pending = false;
                } else if c == '~' {
                    current.push('~');
                } else {
                    current.push('~');
                    current.push(c);
                    pending = false;
                }
            } else if c == '~' {
                pending = true;
            } else {
                current.push(c);
            }
        }
        i += 1;
    }
    if pending {
        current.push('~');
    }
    done.push(current);
    done
}

proof fn lemma_unescaped_prefix(a: Seq<char>, b: Seq<char>, n: nat)
    requires
        n <= a.len() <= b.len(),
        forall|i: int| 0 <= i < a.len() ==> a[i] == b[i],
    ensures
        unescaped(a, n) == unescaped(b, n),
    decreases n,
{
    if n > 0 {
        lemma_unescaped_prefix(a, b, (n - 1) as nat);
    }
}

/// Whether a string is the given sequence of characters.
pub fn text_equals(s: &str, token: &Vec<char>) -> (r: bool)
    ensures
        r == (s@ == token@),
{
    let n = s.unicode_len();
    if n != token.len() {
        return false;
    }
    let mut i: usize = 0;
    while i < n
        invariant
            i <= n,
            n == s@.len(),
            n == token@.len(),
            forall|k: int| 0 <= k < i ==> s@[k] == token@[k],
        decreases n - i,
    {
        if s.get_char(i) != token[i] {
            return false;
        }
        i += 1;
    }
    assert(s@ =~= token@);
    true
}

/// The position in an array that a reference token names.
pub fn parse_index(token: &Vec<char>) -> (r: Option<usize>)
    ensures
        match r {
            Some(i) => token_index(token@) == Some(i as nat),
            None => token_index(token@) is None,
        },
{
    let n = token.len();
    if n == 0 || (token[0] == '0' && n != 1) {
        return None;
    }
    let mut acc: usize = 0;
    let mut i: usize = 0;
    while i < n
        invariant
            i <= n,
            n == token@.len(),
            forall|k: int| 0 <= k < i ==> '0' <= #[trigger] token@[k] <= '9',
            acc == digits_value(token@, i as nat),
        decreases n - i,
    {
        let c = token[i];
        if c < '0' || c > '9' {
            return None;
        }
        let d: usize = (c as u32 - '0' as u32) as usize;
        if acc > (usize::MAX - d) / 10 {
            proof {
                assert(digits_value(token@, (i + 1) as nat) > usize::MAX);
                lemma_digits_value_grows(token@, (i + 1) as nat, n as nat);
            }
            return None;
        }
        acc = acc * 10 + d;
        i += 1;
    }
    assert(all_digits(token@));
    Some(acc)
}

proof fn lemma_digits_value_grows(token: Seq<char>, k: nat, n: nat)
    requires
        k <= n <= token.len(),
    ensures
        digits_value(token, k) <= digits_value(token, n),
    decreases n,
{
    if k < n {
        lemma_digits_value_grows(token, k, (n - 1) as nat);
        assert(digits_value(token, (n - 1) as nat) * 10 >= digits_value(token, (n - 1) as nat));
    }
}

impl Json {
    /// What the document holds under one reference token.
    #[verifier::loop_isolation(false)]
    pub fn step(&self, token: &Vec<char>) -> (r: Option<&Json>)
        ensures
            match r {
                Some(x) => step_into(self@, token@) == Some(x@),
                None => step_into(self@, token@) is None,
            },
    {
        match self {
            Json::Object(entries) => {
                proof {
                    lemma_object_view(*entries);
                }
                let mut i: usize = 0;
                while i < entries.len()
                    invariant
                        i <= entries@.len(),
                        forall|k: int|
                            0 <= k < i ==> (#[trigger] members_of(entries@)[k]).0 != token@,
                    decreases entries@.len() - i,
                {
                    if text_equals(entries[i].0.as_str(), token) {
                        proof {
                            crate::json::lemma_first_is_key_index(
                                members_of(entries@),
                                token@,
                                i as int,
                            );
                        }
                        return Some(&entries[i].1);
                    }
                    i += 1;
                }
                None
            },
            Json::Array(items) => {
                proof {
                    lemma_array_view(*items);
                }
                match parse_index(token) {
                    Some(i) => if i < items.len() {
                        Some(&items[i])
                    } else {
                        None
                    },
                    None => None,
                }
            },
            _ => None,
        }
    }

    /// What the document holds at a pointer.
    #[verifier::loop_isolation(false)]
    pub fn pointer(&self, pointer: &str) -> (r: Option<&Json>)
        ensures
            match r {
                Some(x) => resolve(self@, pointer@) == Some(x@),
                None => resolve(self@, pointer@) is None,
            },
    {
        let n = pointer.unicode_len();
        if n == 0 {
            return Some(self);
        }
        if pointer.get_char(0) != '/' {
            return None;
        }
        let tokens = split_tokens(pointer);
        let ghost raw = raw_tokens(pointer@.skip(1), (pointer@.len() - 1) as nat);
        let mut at: &Json = self;
        let mut i: usize = 0;
        while i < tokens.len()
            invariant
                i <= tokens@.len(),
                tokens@.len() == raw.len(),
                forall|k: int| 0 <= k < tokens@.len() ==> (#[trigger] tokens@[k])@ == token_text(raw[k]),
                walk(self@, raw, i as nat) == Some(at@),
            decreases tokens@.len() - i,
        {
            match at.step(&tokens[i]) {
                Some(next) => {
                    at = next;
                },
                None => {
                    proof {
                        assert(walk(self@, raw, (i + 1) as nat) is None);
                        lemma_walk_fails(self@, raw, (i + 1) as nat, raw.len());
                    }
                    return None;
                },
            }
            i += 1;
        }
        Some(at)
    }
}

proof fn lemma_walk_fails(v: JsonValue, tokens: Seq<Seq<char>>, k: nat, n: nat)
    requires
        k <= n <= tokens.len(),
        walk(v, tokens, k) is None,
    ensures
        walk(v, tokens, n) is None,
    decreases n,
{
    if k < n {
        lemma_walk_fails(v, tokens, k, (n - 1) as nat);
    }
}

} // verus!

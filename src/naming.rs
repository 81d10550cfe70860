use vstd::prelude::*;

use crate::text::push_char;

verus! {

/// Whether `c` is an ASCII capital letter.
pub open spec fn is_upper(c: char) -> bool {
    'A' <= c <= 'Z'
}

/// Whether `c` is an ASCII small letter.
pub open spec fn is_lower(c: char) -> bool {
    'a' <= c <= 'z'
}

/// `c` with an ASCII capital letter made small.
pub open spec fn lower(c: char) -> char {
    if is_upper(c) {
        (((c as u32) + 32) as u8) as char
    } else {
        c
    }
}

/// The snake-case form used for generated names: the first character made
/// small, then every ASCII capital letter replaced by `_` and its small form.
pub open spec fn snake_of(s: Seq<char>) -> Seq<char>
    decreases s.len(),
{
    if s.len() == 0 {
        Seq::empty()
    } else if s.len() == 1 {
        seq![lower(s[0])]
    } else {
        let prev = snake_of(s.drop_last());
        let c = s.last();
        if is_upper(c) {
            prev + seq!['_', lower(c)]
        } else {
            prev.push(c)
        }
    }
}

/// The snake-case form that puts `_` only where a small letter is followed by
/// a capital one, and makes every letter small.
pub open spec fn snake_between_of(s: Seq<char>) -> Seq<char>
    decreases s.len(),
{
    if s.len() == 0 {
        Seq::empty()
    } else {
        let prev = snake_between_of(s.drop_last());
        let c = s.last();
        if s.len() >= 2 && is_lower(s[s.len() - 2]) && is_upper(c) {
            prev + seq!['_', lower(c)]
        } else {
            prev.push(lower(c))
        }
    }
}

/// `c` with an ASCII capital letter made small.
pub fn ascii_lower(c: char) -> (r: char)
    ensures
        r == lower(c),
{
    if 'A' <= c && c <= 'Z' {
        (((c as u32) + 32) as u8) as char
    } else {
        c
    }
}

/// Conversion of a name to snake case.
pub trait ToSnakeCase: View<V = Seq<char>> {
    /// The name with `_` before every capital letter after the first
    /// character, and every capital letter made small.
    fn to_snake_case(&self) -> (r: String)
        ensures
            r@ == snake_of(self@),
    ;
}

/// Conversion of a name to snake case, splitting only between a small and a
/// capital letter.
pub trait StrExt: View<V = Seq<char>> {
    /// The name with `_` between each small letter and a capital letter
    /// after it, and every capital letter made small.
    fn to_snake_case(&self) -> (r: String)
        ensures
            r@ == snake_between_of(self@),
    ;
}

/// The snake-case form of `s`; see [`snake_of`].
pub fn snake_case(s: &str) -> (r: String)
    ensures
        r@ == snake_of(s@),
{
    let n = s.unicode_len();
    let mut out = String::new();
    if n == 0 {
        return out;
    }
    push_char(&mut out, ascii_lower(s.get_char(0)));
    assert(s@.subrange(0, 1) =~= seq![s@[0]]);
    let mut i: usize = 1;
    while i < n
        invariant
            n == s@.len(),
            1 <= i <= n,
            out@ == snake_of(s@.subrange(0, i as int)),
        decreases n - i,
    {
        let c = s.get_char(i);
        assert(s@.subrange(0, i + 1).drop_last() =~= s@.subrange(0, i as int));
        if 'A' <= c && c <= 'Z' {
            push_char(&mut out, '_');
            push_char(&mut out, ascii_lower(c));
            assert(out@ =~= snake_of(s@.subrange(0, i as int)) + seq!['_', lower(c)]);
        } else {
            push_char(&mut out, c);
        }
        i += 1;
    }
    assert(s@.subrange(0, n as int) =~= s@);
    out
}

/// The snake-case form of `s`; see [`snake_between_of`].
pub fn snake_case_between(s: &str) -> (r: String)
    ensures
        r@ == snake_between_of(s@),
{
    let n = s.unicode_len();
    let mut out = String::new();
    let mut i: usize = 0;
    assert(s@.subrange(0, 0) =~= Seq::<char>::empty());
    while i < n
        invariant
            n == s@.len(),
            i <= n,
            out@ == snake_between_of(s@.subrange(0, i as int)),
        decreases n - i,
    {
        let c = s.get_char(i);
        let ghost sub = s@.subrange(0, i + 1);
        assert(sub.drop_last() =~= s@.subrange(0, i as int));
        let split = i >= 1 && {
            let p = s.get_char(i - 1);
            'a' <= p && p <= 'z'
        } && 'A' <= c && c <= 'Z';
        assert(i >= 1 ==> sub[sub.len() - 2] == s@[i - 1]);
        if split {
            push_char(&mut out, '_');
            push_char(&mut out, ascii_lower(c));
            assert(out@ =~= snake_between_of(s@.subrange(0, i as int)) + seq!['_', lower(c)]);
        } else {
            push_char(&mut out, ascii_lower(c));
        }
        i += 1;
    }
    assert(s@.subrange(0, n as int) =~= s@);
    out
}

impl ToSnakeCase for str {
    fn to_snake_case(&self) -> String {
        snake_case(self)
    }
}

impl StrExt for String {
    fn to_snake_case(&self) -> String {
        snake_case_between(self.as_str())
    }
}

} // verus!

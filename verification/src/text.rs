//! Text as a sequence of characters: building, comparing, trimming, printing
//! numbers.
use vstd::prelude::*;
use vstd::std_specs::iter::IteratorSpec;
use vstd::string::StrSliceExecFns;

verus! {

/// `String::push`: the character is put behind the text.
pub assume_specification[ String::push ](s: &mut String, c: char)
    ensures
        final(s)@ == old(s)@.push(c),
;

/// Two texts in code-point order: `a` stands strictly before `b`.
pub open spec fn text_lt(a: Seq<char>, b: Seq<char>) -> bool
    decreases a.len(),
{
    if b.len() == 0 {
        false
    } else if a.len() == 0 {
        true
    } else if a[0] != b[0] {
        (a[0] as int) < (b[0] as int)
    } else {
        text_lt(a.drop_first(), b.drop_first())
    }
}

/// No text stands before itself.
pub proof fn text_lt_irreflexive(a: Seq<char>)
    ensures
        !text_lt(a, a),
    decreases a.len(),
{
    if a.len() > 0 {
        text_lt_irreflexive(a.drop_first());
    }
}

/// Code-point order is transitive.
pub proof fn text_lt_transitive(a: Seq<char>, b: Seq<char>, c: Seq<char>)
    requires
        text_lt(a, b),
        text_lt(b, c),
    ensures
        text_lt(a, c),
    decreases a.len(),
{
    if a.len() > 0 && b.len() > 0 && c.len() > 0 {
        if a[0] == b[0] && b[0] == c[0] {
            text_lt_transitive(a.drop_first(), b.drop_first(), c.drop_first());
        }
    }
}

/// Of two different texts, one stands before the other.
pub proof fn text_lt_total(a: Seq<char>, b: Seq<char>)
    ensures
        text_lt(a, b) || a == b || text_lt(b, a),
    decreases a.len(),
{
    if a.len() == 0 || b.len() == 0 {
        if a.len() == 0 && b.len() == 0 {
            assert(a =~= b);
        }
    } else if a[0] == b[0] {
        text_lt_total(a.drop_first(), b.drop_first());
        if a.drop_first() == b.drop_first() {
            assert(a =~= seq![a[0]] + a.drop_first());
            assert(b =~= seq![b[0]] + b.drop_first());
        }
    } else {
        assert(a[0] as int != b[0] as int);
    }
}

/// The characters of a text, in order.
pub fn chars_of(s: &str) -> (r: Vec<char>)
    ensures
        r@ == s@,
{
    let mut out: Vec<char> = Vec::new();
    for c in iter: s.chars()
        invariant
            out@ == iter.seq().subrange(0, iter.index() as int),
            iter.seq() == s@,
    {
        out.push(c);
    }
    out
}

/// The text made of the characters from `from` up to, not including, `to`.
pub fn text_between(chars: &Vec<char>, from: usize, to: usize) -> (r: String)
    requires
        from <= to <= chars.len(),
    ensures
        r@ == chars@.subrange(from as int, to as int),
{
    let mut out: String = String::new();
    let mut i: usize = from;
    assert(out@ =~= chars@.subrange(from as int, from as int));
    while i < to
        invariant
            from <= i <= to <= chars.len(),
            out@ == chars@.subrange(from as int, i as int),
        decreases to - i,
    {
        out.push(chars[i]);
        i = i + 1;
        assert(out@ =~= chars@.subrange(from as int, i as int));
    }
    out
}

/// The text made of all the characters.
pub fn text_of(chars: &Vec<char>) -> (r: String)
    ensures
        r@ == chars@,
{
    let r: String = text_between(chars, 0, chars.len());
    assert(r@ =~= chars@);
    r
}

/// Puts `tail` behind `s`.
pub fn push_text(s: &mut String, tail: &str)
    ensures
        final(s)@ == old(s)@ + tail@,
{
    let chars: Vec<char> = chars_of(tail);
    let ghost start = s@;
    let mut i: usize = 0;
    assert(s@ =~= start + chars@.subrange(0, 0));
    while i < chars.len()
        invariant
            i <= chars.len(),
            chars@ == tail@,
            s@ == start + chars@.subrange(0, i as int),
        decreases chars.len() - i,
    {
        s.push(chars[i]);
        i = i + 1;
        assert(s@ =~= start + chars@.subrange(0, i as int));
    }
    assert(s@ =~= start + tail@);
}

/// Are the two texts the same?
pub fn same_text(a: &str, b: &str) -> (r: bool)
    ensures
        r == (a@ == b@),
{
    let mut xs = a.chars();
    let mut ys = b.chars();
    loop
        invariant
            (a@ == b@) == (xs.remaining() == ys.remaining()),
            xs.decrease() is Some,
        decreases xs.decrease()->0,
    {
        let ghost before = (xs.remaining(), ys.remaining());
        let x: Option<char> = xs.next();
        let y: Option<char> = ys.next();
        match (x, y) {
            (None, None) => {
                assert(before.0 =~= before.1);
                return true;
            },
            (Some(c), Some(d)) => {
                if c != d {
                    return false;
                }
                proof {
                    assert(before.0 =~= seq![c] + xs.remaining());
                    assert(before.1 =~= seq![c] + ys.remaining());
                }
            },
            (Some(_), None) => {
                return false;
            },
            (None, Some(_)) => {
                return false;
            },
        }
    }
}

/// Does `a` stand strictly before `b` in code-point order?
pub fn text_less(a: &str, b: &str) -> (r: bool)
    ensures
        r == text_lt(a@, b@),
{
    let mut xs = a.chars();
    let mut ys = b.chars();
    loop
        invariant
            text_lt(a@, b@) == text_lt(xs.remaining(), ys.remaining()),
            xs.decrease() is Some,
        decreases xs.decrease()->0,
    {
        let x: Option<char> = xs.next();
        let y: Option<char> = ys.next();
        match (x, y) {
            (_, None) => {
                return false;
            },
            (None, Some(_)) => {
                return true;
            },
            (Some(c), Some(d)) => {
                if c != d {
                    return c < d;
                }
            },
        }
    }
}

/// What follows a prefix, where the text starts with it.
pub open spec fn without_prefix(s: Seq<char>, p: Seq<char>) -> Option<Seq<char>> {
    if s.len() >= p.len() && s.take(p.len() as int) == p {
        Some(s.skip(p.len() as int))
    } else {
        None
    }
}

/// What precedes a suffix, where the text ends with it.
pub open spec fn without_suffix(s: Seq<char>, p: Seq<char>) -> Option<Seq<char>> {
    if s.len() >= p.len() && s.skip(s.len() - p.len()) == p {
        Some(s.take(s.len() - p.len()))
    } else {
        None
    }
}

/// What follows a prefix, where the text starts with it.
pub fn strip_prefix(s: &str, p: &str) -> (r: Option<String>)
    ensures
        crate::json::opt_text(r) == without_prefix(s@, p@),
{
    let a: Vec<char> = chars_of(s);
    let n: usize = p.unicode_len();
    if a.len() < n {
        return None;
    }
    let head: String = text_between(&a, 0, n);
    assert(head@ =~= s@.take(n as int));
    if same_text(head.as_str(), p) {
        let tail: String = text_between(&a, n, a.len());
        assert(tail@ =~= s@.skip(n as int));
        Some(tail)
    } else {
        None
    }
}

/// What precedes a suffix, where the text ends with it.
pub fn strip_suffix(s: &str, p: &str) -> (r: Option<String>)
    ensures
        crate::json::opt_text(r) == without_suffix(s@, p@),
{
    let a: Vec<char> = chars_of(s);
    let n: usize = p.unicode_len();
    if a.len() < n {
        return None;
    }
    let cut: usize = a.len() - n;
    let tail: String = text_between(&a, cut, a.len());
    assert(tail@ =~= s@.skip(cut as int));
    if same_text(tail.as_str(), p) {
        let head: String = text_between(&a, 0, cut);
        assert(head@ =~= s@.take(cut as int));
        Some(head)
    } else {
        None
    }
}

/// A character with the Unicode property White_Space.
pub open spec fn is_white(c: char) -> bool {
    let u = c as u32;
    ||| 0x09 <= u <= 0x0d
    ||| u == 0x20 || u == 0x85 || u == 0xa0 || u == 0x1680
    ||| 0x2000 <= u <= 0x200a
    ||| u == 0x2028 || u == 0x2029 || u == 0x202f || u == 0x205f || u == 0x3000
}

/// The text without the white space it starts with.
pub open spec fn trim_start(s: Seq<char>) -> Seq<char>
    decreases s.len(),
{
    if s.len() > 0 && is_white(s[0]) {
        trim_start(s.drop_first())
    } else {
        s
    }
}

/// The text without the white space it ends with.
pub open spec fn trim_end(s: Seq<char>) -> Seq<char>
    decreases s.len(),
{
    if s.len() > 0 && is_white(s.last()) {
        trim_end(s.drop_last())
    } else {
        s
    }
}

/// The text without white space at either end.
pub open spec fn trim(s: Seq<char>) -> Seq<char> {
    trim_end(trim_start(s))
}

fn white(c: char) -> (r: bool)
    ensures
        r == is_white(c),
{
    let u: u32 = c as u32;
    (0x09 <= u && u <= 0x0d) || u == 0x20 || u == 0x85 || u == 0xa0 || u == 0x1680 || (0x2000 <= u
        && u <= 0x200a) || u == 0x2028 || u == 0x2029 || u == 0x202f || u == 0x205f || u == 0x3000
}

/// The text without white space at either end.
pub fn trimmed(s: &str) -> (r: String)
    ensures
        r@ == trim(s@),
{
    let chars: Vec<char> = chars_of(s);
    let n: usize = chars.len();
    let mut from: usize = 0;
    assert(chars@.subrange(0, n as int) =~= chars@);
    while from < n && white(chars[from])
        invariant
            from <= n == chars.len(),
            trim_start(chars@) == trim_start(chars@.subrange(from as int, n as int)),
        decreases n - from,
    {
        assert(chars@.subrange(from as int, n as int).drop_first() =~= chars@.subrange(
            from + 1,
            n as int,
        ));
        from = from + 1;
    }
    let ghost start = trim_start(chars@);
    assert(start == chars@.subrange(from as int, n as int));
    let mut to: usize = n;
    while to > from && white(chars[to - 1])
        invariant
            from <= to <= n == chars.len(),
            trim_end(start) == trim_end(chars@.subrange(from as int, to as int)),
        decreases to,
    {
        assert(chars@.subrange(from as int, to as int).drop_last() =~= chars@.subrange(
            from as int,
            to - 1,
        ));
        to = to - 1;
    }
    text_between(&chars, from, to)
}

/// The character for a digit below thirty-six.
pub open spec fn digit_char(d: int) -> char {
    if d < 10 {
        (('0' as u32 + d) as u8) as char
    } else {
        (('a' as u32 + (d - 10)) as u8) as char
    }
}

/// A number written in a base, most significant digit first, without leading zeros.
pub open spec fn numeral(n: nat, base: nat) -> Seq<char>
    decreases n,
    via numeral_ends
{
    if base < 2 {
        seq![]
    } else if n < base {
        seq![digit_char(n as int)]
    } else {
        numeral(n / base, base).push(digit_char((n % base) as int))
    }
}

#[via_fn]
proof fn numeral_ends(n: nat, base: nat) {
    if base >= 2 && n >= base {
        assert(n / base < n) by (nonlinear_arith)
            requires
                n >= base >= 2,
        ;
    }
}

fn digit(d: u8) -> (r: char)
    requires
        d < 36,
    ensures
        r == digit_char(d as int),
{
    if d < 10 {
        (48 + d) as char
    } else {
        (97 + (d - 10)) as char
    }
}

/// A number written in a base.
pub fn number_text(n: u64, base: u64) -> (r: String)
    requires
        2 <= base <= 36,
    ensures
        r@ == numeral(n as nat, base as nat),
    decreases n,
{
    if n < base {
        let mut s: String = String::new();
        s.push(digit(n as u8));
        assert(s@ =~= seq![digit_char(n as int)]);
        s
    } else {
        assert(n / base < n) by (nonlinear_arith)
            requires
                n >= base >= 2,
        ;
        let mut s: String = number_text(n / base, base);
        s.push(digit((n % base) as u8));
        s
    }
}

/// Of two texts the one stands first whose character is the lower where they first differ,
/// and a beginning stands before what goes on from it.
pub proof fn texts_are_ordered_by_their_first_difference(a: Seq<char>, b: Seq<char>, k: int)
    requires
        0 <= k <= a.len(),
        k <= b.len(),
        a.take(k) == b.take(k),
    ensures
        a.len() == k ==> (text_lt(a, b) <==> k < b.len()),
        b.len() == k ==> !text_lt(a, b),
        k < a.len() && k < b.len() && a[k] != b[k] ==> (text_lt(a, b) <==> (a[k] as int) < (
        b[k] as int)),
    decreases k,
{
    if k > 0 {
        assert(a[0] == a.take(k)[0] && b[0] == b.take(k)[0]);
        let (x, y) = (a.drop_first(), b.drop_first());
        assert(x.take(k - 1) =~= a.take(k).drop_first());
        assert(y.take(k - 1) =~= b.take(k).drop_first());
        texts_are_ordered_by_their_first_difference(x, y, k - 1);
    }
}

/// A prefix and what follows it make the text, and so do what precedes a suffix and it.
pub proof fn a_text_is_its_prefix_and_the_rest(s: Seq<char>, p: Seq<char>, rest: Seq<char>)
    ensures
        without_prefix(s, p) == Some(rest) <==> s == p + rest,
        without_suffix(s, p) == Some(rest) <==> s == rest + p,
{
    if s == p + rest {
        assert(s.take(p.len() as int) =~= p);
        assert(s.skip(p.len() as int) =~= rest);
    }
    if without_prefix(s, p) == Some(rest) {
        assert(s =~= p + rest) by {
            assert(s =~= s.take(p.len() as int) + s.skip(p.len() as int));
        }
    }
    if s == rest + p {
        assert(s.skip(s.len() - p.len()) =~= p);
        assert(s.take(s.len() - p.len()) =~= rest);
    }
    if without_suffix(s, p) == Some(rest) {
        assert(s =~= rest + p) by {
            assert(s =~= s.take(s.len() - p.len()) + s.skip(s.len() - p.len()));
        }
    }
}

proof fn trim_start_is(s: Seq<char>)
    ensures
        trim_start(s).len() <= s.len(),
        s.skip(s.len() - trim_start(s).len()) == trim_start(s),
        forall|i: int| 0 <= i < s.len() - trim_start(s).len() ==> is_white(#[trigger] s[i]),
        trim_start(s).len() > 0 ==> !is_white(trim_start(s)[0]),
    decreases s.len(),
{
    if s.len() > 0 && is_white(s[0]) {
        let rest = s.drop_first();
        trim_start_is(rest);
        let k = s.len() - trim_start(s).len();
        assert(s.skip(k) =~= rest.skip(k - 1));
        assert forall|i: int| 0 <= i < k implies is_white(#[trigger] s[i]) by {
            if i > 0 {
                assert(rest[i - 1] == s[i]);
            }
        }
    } else {
        assert(s.skip(0) =~= s);
    }
}

proof fn trim_end_is(s: Seq<char>)
    ensures
        trim_end(s).len() <= s.len(),
        s.take(trim_end(s).len() as int) == trim_end(s),
        forall|i: int| trim_end(s).len() <= i < s.len() ==> is_white(#[trigger] s[i]),
        trim_end(s).len() > 0 ==> !is_white(trim_end(s).last()),
    decreases s.len(),
{
    if s.len() > 0 && is_white(s.last()) {
        let rest = s.drop_last();
        trim_end_is(rest);
        let k = trim_end(s).len() as int;
        assert(s.take(k) =~= rest.take(k));
        assert forall|i: int| k <= i < s.len() implies is_white(#[trigger] s[i]) by {
            if i < rest.len() {
                assert(rest[i] == s[i]);
            }
        }
    } else {
        assert(s.take(s.len() as int) =~= s);
    }
}

/// Trimming takes white space off both ends and nothing else: what stays neither begins nor
/// ends with any, and nothing stays only of white space.
pub proof fn trimming_takes_white_ends_only(s: Seq<char>)
    ensures
        exists|from: int, to: int|
            0 <= from <= to <= s.len() && trim(s) == #[trigger] s.subrange(from, to) && (forall|
                i: int,
            |
                0 <= i < from || to <= i < s.len() ==> is_white(#[trigger] s[i])),
        trim(s).len() > 0 ==> !is_white(trim(s)[0]) && !is_white(trim(s).last()),
        trim(s).len() == 0 <==> forall|i: int| 0 <= i < s.len() ==> is_white(#[trigger] s[i]),
{
    let head = trim_start(s);
    trim_start_is(s);
    trim_end_is(head);
    let from = s.len() - head.len();
    let to = from + trim(s).len();
    assert(trim(s) =~= s.subrange(from, to)) by {
        assert(trim(s) == head.take(trim(s).len() as int));
        assert(head == s.skip(from));
    }
    assert forall|i: int| 0 <= i < from || to <= i < s.len() implies is_white(#[trigger] s[i]) by {
        if i >= to {
            assert(head[i - from] == s[i]);
        }
    }
    if trim(s).len() > 0 {
        assert(trim(s)[0] == head[0]);
        assert(trim(s)[0] == s[from]);
    }
}

/// Of the first characters, white space are the blank, the tab, the line and page breaks and
/// the carriage return.
pub proof fn plain_white_space(c: char)
    requires
        (c as u32) < 128,
    ensures
        is_white(c) <==> c as u32 == 32 || 9 <= c as u32 <= 13,
{
}

/// What a digit stands for.
pub open spec fn digit_value(c: char) -> int {
    if c as u32 <= 57 {
        c as u32 - 48
    } else {
        c as u32 - 87
    }
}

proof fn digits_stand_for(d: int)
    requires
        0 <= d < 36,
    ensures
        digit_value(digit_char(d)) == d,
{
}

/// A number is read back from its numeral: each digit is worth the base times what follows,
/// and there is no digit too many in front.
pub proof fn a_numeral_reads_back(n: nat, base: nat)
    requires
        2 <= base <= 36,
    ensures
        numeral(n, base).fold_left(0int, |v: int, c: char| v * base + digit_value(c)) == n,
        numeral(n, base).len() > 0,
        n > 0 ==> digit_value(numeral(n, base)[0]) > 0,
        n == 0 ==> numeral(n, base).len() == 1,
    decreases n,
{
    let f = |v: int, c: char| v * base + digit_value(c);
    let s = numeral(n, base);
    if n < base {
        digits_stand_for(n as int);
        assert(s.drop_last() =~= Seq::<char>::empty());
        assert(Seq::<char>::empty().fold_left(0int, f) == 0);
        assert(s.fold_left(0int, f) == f(0, s.last()));
        assert(0 * base == 0) by (nonlinear_arith);
    } else {
        assert(n / base < n && n / base > 0 && 0 <= n % base < base && n == (n / base) * base + n
            % base) by (nonlinear_arith)
            requires
                n >= base >= 2,
        ;
        a_numeral_reads_back(n / base, base);
        digits_stand_for((n % base) as int);
        assert(s.drop_last() =~= numeral(n / base, base));
        assert(s.fold_left(0int, f) == f(numeral(n / base, base).fold_left(0int, f), s.last()));
        assert(s[0] == numeral(n / base, base)[0]);
    }
}

} // verus!

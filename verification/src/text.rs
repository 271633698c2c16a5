//! Text as a sequence of characters: prefixes, splitting, lines, replacement,
//! order, decimal numbers, upper case and UTF-8.

use vstd::prelude::*;
#[allow(unused_imports)]
use vstd::utf8::{decode_utf8, valid_utf8};

verus! {

/// `String::push` appends the character to the end of the string.
pub assume_specification[ String::push ](s: &mut String, c: char)
    ensures
        final(s)@ == old(s)@.push(c),
;

/// The texts held by a list of strings.
pub open spec fn texts(list: Seq<String>) -> Seq<Seq<char>> {
    Seq::new(list.len(), |i: int| list[i]@)
}

/// The text held by an optional string.
pub open spec fn opt_text(s: Option<String>) -> Option<Seq<char>> {
    match s {
        Some(s) => Some(s@),
        None => None,
    }
}

/// The text held by an optional borrowed string.
pub open spec fn opt_str(s: Option<&str>) -> Option<Seq<char>> {
    match s {
        Some(s) => Some(s@),
        None => None,
    }
}

/// The position of the first `c` in `s`, or `s.len()` where there is none.
pub open spec fn find(s: Seq<char>, c: char) -> nat
    decreases s.len(),
{
    if s.len() == 0 || s[0] == c {
        0
    } else {
        1 + find(s.skip(1), c)
    }
}

/// The pieces of `s` between separators: one more than there are separators.
pub open spec fn split(s: Seq<char>, separator: char) -> Seq<Seq<char>>
    decreases s.len(),
{
    let i = find(s, separator) as int;
    if i >= s.len() {
        seq![s]
    } else {
        seq![s.take(i)] + split(s.skip(i + 1), separator)
    }
}

/// A line without the carriage return that belongs to its line ending.
pub open spec fn without_carriage_return(line: Seq<char>) -> Seq<char> {
    if line.len() > 0 && line.last() == '\r' {
        line.drop_last()
    } else {
        line
    }
}

/// The lines of `s`. A line ends in `\n` or `\r\n`; the last ending is
/// optional.
pub open spec fn lines(s: Seq<char>) -> Seq<Seq<char>>
    decreases s.len(),
{
    let i = find(s, '\n') as int;
    if s.len() == 0 {
        Seq::empty()
    } else if i >= s.len() {
        seq![s]
    } else {
        seq![without_carriage_return(s.take(i))] + lines(s.skip(i + 1))
    }
}

/// The parts one after the other, with `separator` between each two.
pub open spec fn join(parts: Seq<Seq<char>>, separator: Seq<char>) -> Seq<char>
    decreases parts.len(),
{
    if parts.len() == 0 {
        Seq::empty()
    } else if parts.len() == 1 {
        parts[0]
    } else {
        join(parts.drop_last(), separator) + separator + parts.last()
    }
}

/// `pattern` stands in `s` at position `i`.
pub open spec fn occurs_at(s: Seq<char>, pattern: Seq<char>, i: int) -> bool {
    0 <= i && i + pattern.len() <= s.len() && s.subrange(i, i + pattern.len()) == pattern
}

/// `pattern` stands somewhere in `s`.
pub open spec fn occurs(s: Seq<char>, pattern: Seq<char>) -> bool {
    exists|i: int| occurs_at(s, pattern, i)
}

/// `s` with every occurrence of `from`, taken from the left and without
/// overlap, replaced by `to`. The empty pattern stands before every character
/// and at the end.
pub open spec fn replace_all(s: Seq<char>, from: Seq<char>, to: Seq<char>) -> Seq<char>
    decreases s.len(),
{
    if from.len() == 0 {
        if s.len() == 0 {
            to
        } else {
            to + seq![s[0]] + replace_all(s.skip(1), from, to)
        }
    } else if s.len() == 0 {
        Seq::empty()
    } else if from.is_prefix_of(s) {
        to + replace_all(s.skip(from.len() as int), from, to)
    } else {
        seq![s[0]] + replace_all(s.skip(1), from, to)
    }
}

/// `a` comes before `b` in the order of the code points, first difference
/// first; a text comes before its extensions.
pub open spec fn comes_before(a: Seq<char>, b: Seq<char>) -> bool
    decreases a.len(),
{
    if b.len() == 0 {
        false
    } else if a.len() == 0 {
        true
    } else if a[0] != b[0] {
        (a[0] as int) < (b[0] as int)
    } else {
        comes_before(a.skip(1), b.skip(1))
    }
}

/// The characters of a string.
pub fn chars_of(s: &str) -> (r: Vec<char>)
    ensures
        r@ == s@,
{
    let mut out: Vec<char> = Vec::new();
    for c in it: s.chars()
        invariant
            out@ == it.seq().take(it.index() as int),
            it.seq() == s@,
    {
        out.push(c);
    }
    out
}

/// The text of a part of a list of characters.
pub fn text_of(chars: &Vec<char>, from: usize, to: usize) -> (r: String)
    requires
        from <= to <= chars@.len(),
    ensures
        r@ == chars@.subrange(from as int, to as int),
{
    let mut out = String::new();
    let mut i: usize = from;
    while i < to
        invariant
            from <= i <= to <= chars@.len(),
            out@ == chars@.subrange(from as int, i as int),
        decreases to - i,
    {
        out.push(chars[i]);
        i = i + 1;
    }
    out
}

/// Whether two texts are the same.
pub fn same_text(a: &str, b: &str) -> (r: bool)
    ensures
        r == (a@ == b@),
{
    let x = chars_of(a);
    let y = chars_of(b);
    x.len() == y.len() && matches_at(&x, &y, 0)
}

/// Whether `pattern` stands in `chars` at position `i`.
fn matches_at(chars: &Vec<char>, pattern: &Vec<char>, i: usize) -> (r: bool)
    requires
        i <= chars@.len(),
    ensures
        r == occurs_at(chars@, pattern@, i as int),
        i == 0 && chars@.len() == pattern@.len() ==> r == (chars@ == pattern@),
{
    let total: usize = chars.len();
    if pattern.len() > total - i {
        return false;
    }
    let mut j: usize = 0;
    while j < pattern.len()
        invariant
            j <= pattern@.len(),
            i + pattern@.len() <= chars@.len(),
            chars@.len() == total,
            forall|k: int| 0 <= k < j ==> chars@[i + k] == pattern@[k],
        decreases pattern@.len() - j,
    {
        if chars[i + j] != pattern[j] {
            proof {
                assert(chars@.subrange(i as int, i + pattern@.len())[j as int] != pattern@[j as int]);
            }
            return false;
        }
        j = j + 1;
    }
    proof {
        assert(chars@.subrange(i as int, i + pattern@.len()) =~= pattern@);
        if i == 0 && chars@.len() == pattern@.len() {
            assert(chars@ =~= pattern@);
        }
    }
    true
}

/// What follows `prefix` in `s`, where `s` starts with it.
pub fn strip_start(s: &str, prefix: &str) -> (r: Option<String>)
    ensures
        r is Some <==> prefix@.is_prefix_of(s@),
        r matches Some(rest) ==> rest@ == s@.skip(prefix@.len() as int),
{
    let chars = chars_of(s);
    let pattern = chars_of(prefix);
    if matches_at(&chars, &pattern, 0) {
        let rest = text_of(&chars, pattern.len(), chars.len());
        assert(rest@ =~= s@.skip(prefix@.len() as int));
        Some(rest)
    } else {
        None
    }
}

/// Whether `s` ends with `suffix`.
pub fn ends_with(s: &str, suffix: &str) -> (r: bool)
    ensures
        r == suffix@.is_suffix_of(s@),
{
    let chars = chars_of(s);
    let pattern = chars_of(suffix);
    if pattern.len() > chars.len() {
        return false;
    }
    matches_at(&chars, &pattern, chars.len() - pattern.len())
}

/// Whether `pattern` stands somewhere in `s`.
pub fn contains(s: &str, pattern: &str) -> (r: bool)
    ensures
        r == occurs(s@, pattern@),
{
    let chars = chars_of(s);
    let wanted = chars_of(pattern);
    let mut i: usize = 0;
    loop
        invariant
            i <= chars@.len(),
            chars@ == s@,
            wanted@ == pattern@,
            forall|k: int| 0 <= k < i ==> !occurs_at(s@, pattern@, k),
        decreases chars@.len() - i,
    {
        if matches_at(&chars, &wanted, i) {
            return true;
        }
        if i == chars.len() {
            return false;
        }
        i = i + 1;
    }
}

/// `s` with every occurrence of `from` replaced by `to`.
pub fn replace_text(s: &str, from: &str, to: &str) -> (r: String)
    ensures
        r@ == replace_all(s@, from@, to@),
{
    let chars = chars_of(s);
    let pattern = chars_of(from);
    let mut out = String::new();
    let mut i: usize = 0;
    assert(s@.skip(0) =~= s@);
    while i < chars.len()
        invariant
            i <= chars@.len(),
            chars@ == s@,
            pattern@ == from@,
            replace_all(s@, from@, to@) == out@ + replace_all(s@.skip(i as int), from@, to@),
        decreases chars@.len() - i,
    {
        let ghost rest = s@.skip(i as int);
        let ghost before = out@;
        proof {
            assert(rest[0] == s@[i as int]);
            assert(rest.skip(1) =~= s@.skip(i + 1));
            if i + from@.len() <= s@.len() {
                assert(rest.subrange(0, from@.len() as int) =~= s@.subrange(i as int, i + from@.len()));
                assert(rest.skip(from@.len() as int) =~= s@.skip(i + from@.len()));
            }
        }
        if pattern.len() == 0 {
            out.append(to);
            out.push(chars[i]);
            i = i + 1;
            assert(out@ =~= before + (to@ + seq![rest[0]]));
        } else if matches_at(&chars, &pattern, i) {
            out.append(to);
            i = i + pattern.len();
        } else {
            out.push(chars[i]);
            i = i + 1;
            assert(out@ =~= before + seq![rest[0]]);
        }
        assert(replace_all(s@, from@, to@) =~= out@ + replace_all(s@.skip(i as int), from@, to@));
    }
    assert(s@.skip(i as int) =~= Seq::empty());
    if pattern.len() == 0 {
        out.append(to);
    }
    assert(out@ =~= replace_all(s@, from@, to@));
    out
}

/// Where the first `c` stands in two texts put together.
pub proof fn lemma_find_concat(head: Seq<char>, tail: Seq<char>, c: char)
    ensures
        find(head + tail, c) == (if find(head, c) < head.len() {
            find(head, c)
        } else {
            head.len() + find(tail, c)
        }),
    decreases head.len(),
{
    if head.len() == 0 {
        assert(head + tail =~= tail);
    } else {
        assert((head + tail).skip(1) =~= head.skip(1) + tail);
        lemma_find_concat(head.skip(1), tail, c);
    }
}

/// Splitting two texts with a separator between them splits each of them.
pub proof fn lemma_split_concat(a: Seq<char>, b: Seq<char>, separator: char)
    ensures
        split(a + seq![separator] + b, separator) == split(a, separator) + split(b, separator),
    decreases a.len(),
{
    let tail = seq![separator] + b;
    let whole = a + seq![separator] + b;
    assert(whole =~= a + tail);
    assert(find(tail, separator) == 0);
    lemma_find_concat(a, tail, separator);
    lemma_find(a, separator);
    let i = find(a, separator) as int;
    if i < a.len() {
        assert(whole.take(i) =~= a.take(i));
        assert(whole.skip(i + 1) =~= a.skip(i + 1) + seq![separator] + b);
        lemma_split_concat(a.skip(i + 1), b, separator);
        assert(split(whole, separator) =~= split(a, separator) + split(b, separator));
    } else {
        assert(whole.take(i) =~= a);
        assert(whole.skip(i + 1) =~= b);
    }
}

/// The first occurrence is an occurrence, and none comes before it.
pub proof fn lemma_find(s: Seq<char>, c: char)
    ensures
        find(s, c) <= s.len(),
        find(s, c) < s.len() ==> s[find(s, c) as int] == c,
        forall|k: int| 0 <= k < find(s, c) ==> s[k] != c,
        s.contains(c) <==> find(s, c) < s.len(),
    decreases s.len(),
{
    if s.len() > 0 && s[0] != c {
        lemma_find(s.skip(1), c);
        assert forall|k: int| 0 <= k < find(s, c) implies s[k] != c by {
            if k > 0 {
                assert(s.skip(1)[k - 1] == s[k]);
            }
        }
        if s.contains(c) {
            let k = choose|k: int| 0 <= k < s.len() && s[k] == c;
            assert(s.skip(1)[k - 1] == c);
        }
    }
}

/// The pieces of `s` between separators.
pub fn split_text(s: &str, separator: char) -> (r: Vec<String>)
    ensures
        texts(r@) == split(s@, separator),
{
    let chars = chars_of(s);
    let mut out: Vec<String> = Vec::new();
    let mut start: usize = 0;
    let mut i: usize = 0;
    assert(s@.skip(0) =~= s@);
    assert(texts(out@) + split(s@, separator) =~= split(s@, separator));
    while i < chars.len()
        invariant
            start <= i <= chars@.len(),
            chars@ == s@,
            !s@.subrange(start as int, i as int).contains(separator),
            texts(out@) + split(s@.skip(start as int), separator) == split(s@, separator),
        decreases chars@.len() - i,
    {
        let ghost piece = s@.subrange(start as int, i as int);
        if chars[i] == separator {
            let ghost rest = s@.skip(start as int);
            let ghost before = texts(out@);
            out.push(text_of(&chars, start, i));
            proof {
                let tail = s@.skip(i as int);
                assert(rest =~= piece + tail);
                assert(find(tail, separator) == 0);
                lemma_find(piece, separator);
                lemma_find_concat(piece, tail, separator);
                assert(rest.take(piece.len() as int) =~= piece);
                assert(rest.skip(piece.len() as int + 1) =~= s@.skip(i + 1));
                assert(texts(out@) =~= before.push(piece));
                assert(before + (seq![piece] + split(s@.skip(i + 1), separator))
                    =~= texts(out@) + split(s@.skip(i + 1), separator));
            }
            start = i + 1;
            assert(s@.subrange(start as int, start as int) =~= Seq::empty());
        } else {
            assert(s@.subrange(start as int, i + 1) =~= piece.push(s@[i as int]));
            assert forall|x: char| piece.push(s@[i as int]).contains(x) implies piece.contains(x)
                || x == s@[i as int] by {
                let k = choose|k: int| 0 <= k <= piece.len() && piece.push(s@[i as int])[k] == x;
                if k < piece.len() {
                    assert(piece[k] == x);
                }
            }
        }
        i = i + 1;
    }
    let ghost before = texts(out@);
    let ghost piece = s@.skip(start as int);
    assert(s@.subrange(start as int, i as int) =~= piece);
    out.push(text_of(&chars, start, i));
    proof {
        lemma_find(piece, separator);
        assert(texts(out@) =~= before + seq![piece]);
    }
    out
}

/// The lines of `s`.
pub fn text_lines(s: &str) -> (r: Vec<String>)
    ensures
        texts(r@) == lines(s@),
{
    let chars = chars_of(s);
    let mut out: Vec<String> = Vec::new();
    let mut start: usize = 0;
    let mut i: usize = 0;
    assert(s@.skip(0) =~= s@);
    assert(texts(out@) + lines(s@) =~= lines(s@));
    while i < chars.len()
        invariant
            start <= i <= chars@.len(),
            chars@ == s@,
            !s@.subrange(start as int, i as int).contains('\n'),
            texts(out@) + lines(s@.skip(start as int)) == lines(s@),
        decreases chars@.len() - i,
    {
        let ghost piece = s@.subrange(start as int, i as int);
        if chars[i] == '\n' {
            let ghost rest = s@.skip(start as int);
            let ghost before = texts(out@);
            let end: usize = if i > start && chars[i - 1] == '\r' { i - 1 } else { i };
            let line = text_of(&chars, start, end);
            assert(line@ =~= without_carriage_return(piece));
            out.push(line);
            proof {
                let tail = s@.skip(i as int);
                assert(rest =~= piece + tail);
                assert(find(tail, '\n') == 0);
                lemma_find(piece, '\n');
                lemma_find_concat(piece, tail, '\n');
                assert(rest.take(piece.len() as int) =~= piece);
                assert(rest.skip(piece.len() as int + 1) =~= s@.skip(i + 1));
                assert(texts(out@) =~= before.push(without_carriage_return(piece)));
                assert(before + (seq![without_carriage_return(piece)] + lines(s@.skip(i + 1)))
                    =~= texts(out@) + lines(s@.skip(i + 1)));
            }
            start = i + 1;
            assert(s@.subrange(start as int, start as int) =~= Seq::empty());
        } else {
            assert(s@.subrange(start as int, i + 1) =~= piece.push(s@[i as int]));
            assert forall|x: char| piece.push(s@[i as int]).contains(x) implies piece.contains(x)
                || x == s@[i as int] by {
                let k = choose|k: int| 0 <= k <= piece.len() && piece.push(s@[i as int])[k] == x;
                if k < piece.len() {
                    assert(piece[k] == x);
                }
            }
        }
        i = i + 1;
    }
    let ghost before = texts(out@);
    let ghost piece = s@.skip(start as int);
    assert(s@.subrange(start as int, i as int) =~= piece);
    if start < chars.len() {
        out.push(text_of(&chars, start, i));
        proof {
            lemma_find(piece, '\n');
            assert(texts(out@) =~= before + seq![piece]);
        }
    } else {
        assert(before + lines(piece) =~= before);
    }
    out
}

/// The parts one after the other, with `separator` between each two.
pub fn join_texts(parts: &Vec<String>, separator: &str) -> (r: String)
    ensures
        r@ == join(texts(parts@), separator@),
{
    let mut out = String::new();
    let mut i: usize = 0;
    assert(texts(parts@).take(0) =~= Seq::empty());
    while i < parts.len()
        invariant
            i <= parts@.len(),
            out@ == join(texts(parts@).take(i as int), separator@),
        decreases parts@.len() - i,
    {
        if i > 0 {
            out.append(separator);
        }
        out.append(parts[i].as_str());
        proof {
            let upto = texts(parts@).take(i + 1);
            assert(upto.drop_last() =~= texts(parts@).take(i as int));
            assert(upto.last() == parts@[i as int]@);
            assert(out@ =~= join(upto, separator@));
        }
        i = i + 1;
    }
    assert(texts(parts@).take(i as int) =~= texts(parts@));
    out
}

/// Whether `a` comes before `b`.
pub fn before(a: &str, b: &str) -> (r: bool)
    ensures
        r == comes_before(a@, b@),
{
    let x = chars_of(a);
    let y = chars_of(b);
    let mut i: usize = 0;
    assert(a@.skip(0) =~= a@);
    assert(b@.skip(0) =~= b@);
    loop
        invariant
            i <= x@.len(),
            i <= y@.len(),
            x@ == a@,
            y@ == b@,
            comes_before(a@, b@) == comes_before(a@.skip(i as int), b@.skip(i as int)),
        decreases x@.len() - i,
    {
        if i == y.len() {
            return false;
        }
        if i == x.len() {
            return true;
        }
        let p: char = x[i];
        let q: char = y[i];
        if p != q {
            return p < q;
        }
        assert(a@.skip(i as int).skip(1) =~= a@.skip(i + 1));
        assert(b@.skip(i as int).skip(1) =~= b@.skip(i + 1));
        i = i + 1;
    }
}

/// No text comes before itself.
pub proof fn lemma_before_irreflexive(a: Seq<char>)
    ensures
        !comes_before(a, a),
    decreases a.len(),
{
    if a.len() > 0 {
        lemma_before_irreflexive(a.skip(1));
    }
}

/// What comes before a text comes before all that the text comes before.
pub proof fn lemma_before_transitive(a: Seq<char>, b: Seq<char>, c: Seq<char>)
    requires
        comes_before(a, b),
        comes_before(b, c),
    ensures
        comes_before(a, c),
    decreases a.len(),
{
    if a.len() > 0 && a[0] == b[0] && b[0] == c[0] {
        lemma_before_transitive(a.skip(1), b.skip(1), c.skip(1));
    }
}

/// Of two different texts one comes before the other.
pub proof fn lemma_before_total(a: Seq<char>, b: Seq<char>)
    ensures
        a == b || comes_before(a, b) || comes_before(b, a),
    decreases a.len(),
{
    if a.len() > 0 && b.len() > 0 && a[0] == b[0] {
        lemma_before_total(a.skip(1), b.skip(1));
        if a.skip(1) == b.skip(1) {
            assert(a =~= seq![a[0]] + a.skip(1));
            assert(b =~= seq![b[0]] + b.skip(1));
            assert(a == b);
        }
    } else if a.len() > 0 && b.len() > 0 {
        assert(a[0] as int != b[0] as int);
    } else if a.len() == 0 && b.len() == 0 {
        assert(a =~= b);
    }
}

/// `part`, `count` times.
pub open spec fn repeated(part: Seq<char>, count: nat) -> Seq<char>
    decreases count,
{
    if count == 0 {
        Seq::empty()
    } else {
        repeated(part, (count - 1) as nat) + part
    }
}

/// `part`, `count` times.
pub fn repeat_text(part: &str, count: usize) -> (r: String)
    ensures
        r@ == repeated(part@, count as nat),
{
    let mut out = String::new();
    let mut i: usize = 0;
    while i < count
        invariant
            i <= count,
            out@ == repeated(part@, i as nat),
        decreases count - i,
    {
        out.append(part);
        i = i + 1;
    }
    out
}

/// The decimal digits of `n`.
pub open spec fn digits(n: nat) -> Seq<char>
    decreases n,
{
    if n < 10 {
        seq![(48 + n) as char]
    } else {
        digits(n / 10).push((48 + n % 10) as char)
    }
}

/// `n` in decimal, with a minus sign before the digits of a negative number.
pub open spec fn decimal(n: int) -> Seq<char> {
    if n < 0 {
        seq!['-'] + digits((-n) as nat)
    } else {
        digits(n as nat)
    }
}

/// Appends the decimal digits of `n`.
fn push_digits(out: &mut String, n: u64)
    ensures
        final(out)@ == old(out)@ + digits(n as nat),
    decreases n,
{
    if n >= 10 {
        push_digits(out, n / 10);
    }
    let digit: u8 = 48 + (n % 10) as u8;
    out.push(digit as char);
    assert(out@ =~= old(out)@ + digits(n as nat));
}

/// `n` in decimal.
pub fn decimal_text(n: i32) -> (r: String)
    ensures
        r@ == decimal(n as int),
{
    let mut out = String::new();
    if n < 0 {
        out.push('-');
        push_digits(&mut out, (-(n as i64)) as u64);
        assert(out@ =~= decimal(n as int));
    } else {
        push_digits(&mut out, n as u64);
        assert(out@ =~= decimal(n as int));
    }
    out
}

/// An ASCII letter in upper case, any other character as it is.
pub open spec fn ascii_upper(c: char) -> char {
    if 97 <= c as int <= 122 {
        (c as int - 32) as char
    } else {
        c
    }
}

/// What `char::to_uppercase` yields for a character outside ASCII.
pub uninterp spec fn unicode_upper(c: char) -> Seq<char>;

/// The upper case of a character.
pub open spec fn upper_char(c: char) -> Seq<char> {
    if (c as int) < 128 {
        seq![ascii_upper(c)]
    } else {
        unicode_upper(c)
    }
}

/// `s` in upper case: the upper case of each of its characters, in order.
pub open spec fn upper(s: Seq<char>) -> Seq<char>
    decreases s.len(),
{
    if s.len() == 0 {
        Seq::empty()
    } else {
        upper(s.drop_last()) + upper_char(s.last())
    }
}

/// `char::to_uppercase`, collected. The mapping depends on the character
/// alone. An ASCII letter maps to its capital and every other ASCII character
/// to itself; outside ASCII the mapping is Unicode's, which `unicode_upper`
/// stands for.
#[verifier::external_body]
fn char_uppercase(c: char) -> (r: Vec<char>)
    ensures
        (c as int) < 128 ==> r@ == seq![ascii_upper(c)],
        (c as int) >= 128 ==> r@ == unicode_upper(c),
{
    c.to_uppercase().collect()
}

/// `s` in upper case.
pub fn upper_text(s: &str) -> (r: String)
    ensures
        r@ == upper(s@),
{
    let chars = chars_of(s);
    let mut out = String::new();
    let mut i: usize = 0;
    assert(s@.take(0) =~= Seq::empty());
    while i < chars.len()
        invariant
            i <= chars@.len(),
            chars@ == s@,
            out@ == upper(s@.take(i as int)),
        decreases chars@.len() - i,
    {
        let mapped = char_uppercase(chars[i]);
        let part = text_of(&mapped, 0, mapped.len());
        out.append(part.as_str());
        proof {
            assert(part@ =~= upper_char(s@[i as int]));
            assert(s@.take(i + 1).drop_last() =~= s@.take(i as int));
        }
        i = i + 1;
    }
    assert(s@.take(i as int) =~= s@);
    out
}

/// How `std::str::from_utf8` describes, in its debug form, the first fault of
/// bytes that are not UTF-8.
pub uninterp spec fn utf8_fault(bytes: Seq<u8>) -> Seq<char>;

/// `std::str::from_utf8`, with the text copied and the error in its debug
/// form. It succeeds exactly on valid UTF-8 and gives the text that the bytes
/// encode; what the error says is a function of the bytes, which `utf8_fault`
/// stands for.
#[verifier::external_body]
pub(crate) fn read_utf8(bytes: &[u8]) -> (r: Result<String, String>)
    ensures
        r is Ok <==> valid_utf8(bytes@),
        r matches Ok(s) ==> s@ == decode_utf8(bytes@),
        r matches Err(e) ==> e@ == utf8_fault(bytes@),
{
    match std::str::from_utf8(bytes) {
        Ok(s) => Ok(s.to_owned()),
        Err(e) => Err(format!("{:?}", e)),
    }
}

} // verus!

//! What holds of text that is split, joined, replaced, repeated, compared and
//! written in upper case.

use vstd::prelude::*;

#[allow(unused_imports)]
use crate::script::{decoded_flags, with_pwd};
#[allow(unused_imports)]
use crate::text::{comes_before, decimal, digits, find, join, lemma_before_irreflexive, lemma_find, lemma_find_concat, lemma_split_concat, lines, occurs, occurs_at, opt_str, opt_text, repeated, replace_all, split, texts, unicode_upper, upper, upper_char};

verus! {

/// Text that does not hold what is replaced stays as it is.
pub proof fn law_replace_without_occurrence(s: Seq<char>, from: Seq<char>, to: Seq<char>)
    requires
        !occurs(s, from),
    ensures
        replace_all(s, from, to) == s,
    decreases s.len(),
{
    if from.len() == 0 {
        assert(s.subrange(0, 0) =~= from);
        assert(occurs_at(s, from, 0));
    } else if s.len() > 0 {
        if from.is_prefix_of(s) {
            assert(occurs_at(s, from, 0));
        }
        let rest = s.skip(1);
        assert forall|i: int| !occurs_at(rest, from, i) by {
            if occurs_at(rest, from, i) {
                assert(rest.subrange(i, i + from.len()) =~= s.subrange(i + 1, i + 1 + from.len()));
                assert(occurs_at(s, from, i + 1));
            }
        }
        law_replace_without_occurrence(rest, from, to);
        assert(s =~= seq![s[0]] + rest);
    } else {
        assert(s =~= Seq::empty());
    }
}

/// The end of `to` could be the start of `from`.
pub open spec fn ends_like_start(to: Seq<char>, from: Seq<char>) -> bool {
    exists|k: int|
        0 < k < from.len() && k <= to.len() && #[trigger] to.skip(to.len() - k) == from.take(k)
}

/// What replaced text starts with, the text itself starts with, as long as the
/// replacement cannot be part of it.
proof fn lemma_start_unchanged(s: Seq<char>, from: Seq<char>, to: Seq<char>, start: Seq<char>)
    requires
        from.len() > 0,
        to.len() > 0,
        !start.contains(to[0]),
        start.is_prefix_of(replace_all(s, from, to)),
    ensures
        start.is_prefix_of(s),
    decreases s.len(),
{
    let out = replace_all(s, from, to);
    if start.len() == 0 {
        assert(start =~= s.subrange(0, 0));
    } else {
        assert(out.subrange(0, start.len() as int)[0] == start[0]);
        assert(start[0] == out[0]);
        assert(start.contains(start[0]));
        if s.len() > 0 {
            assert(!from.is_prefix_of(s)) by {
                if from.is_prefix_of(s) {
                    assert(out[0] == to[0]);
                }
            }
            let rest = s.skip(1);
            let after = start.skip(1);
            assert forall|x: char| after.contains(x) implies start.contains(x) by {
                let k = choose|k: int| 0 <= k < after.len() && after[k] == x;
                assert(start[k + 1] == x);
            }
            assert(out =~= seq![s[0]] + replace_all(rest, from, to));
            assert(replace_all(rest, from, to).subrange(0, after.len() as int) =~= out.subrange(
                0,
                start.len() as int,
            ).skip(1));
            lemma_start_unchanged(rest, from, to, after);
            assert(s.subrange(0, start.len() as int) =~= seq![s[0]] + rest.subrange(
                0,
                after.len() as int,
            ));
            assert(start =~= seq![start[0]] + after);
        }
    }
}

/// Where the replacement does not hold what is replaced, does not start with a
/// character of it and does not end like its start, nothing to replace is left.
pub proof fn law_replace_leaves_none(s: Seq<char>, from: Seq<char>, to: Seq<char>)
    requires
        from.len() > 0,
        to.len() > 0,
        !from.contains(to[0]),
        !occurs(to, from),
        !ends_like_start(to, from),
    ensures
        !occurs(replace_all(s, from, to), from),
    decreases s.len(),
{
    let out = replace_all(s, from, to);
    if s.len() > 0 {
        let matched = from.is_prefix_of(s);
        let done = if matched { to } else { seq![s[0]] };
        let rest = if matched { s.skip(from.len() as int) } else { s.skip(1) };
        let tail = replace_all(rest, from, to);
        law_replace_leaves_none(rest, from, to);
        assert(out =~= done + tail);
        assert forall|i: int| !occurs_at(out, from, i) by {
            if occurs_at(out, from, i) {
                let n = done.len() as int;
                let found = out.subrange(i, i + from.len());
                if i >= n {
                    assert(tail.subrange(i - n, i - n + from.len()) =~= found);
                    assert(occurs_at(tail, from, i - n));
                } else if !matched {
                    assert(i == 0);
                    let after = from.skip(1);
                    assert forall|x: char| after.contains(x) implies from.contains(x) by {
                        let k = choose|k: int| 0 <= k < after.len() && after[k] == x;
                        assert(from[k + 1] == x);
                    }
                    assert(tail.subrange(0, after.len() as int) =~= found.skip(1));
                    lemma_start_unchanged(rest, from, to, after);
                    assert(found[0] == s[0]);
                    assert(s.subrange(0, from.len() as int) =~= seq![s[0]] + rest.subrange(
                        0,
                        after.len() as int,
                    ));
                    assert(from =~= seq![from[0]] + after);
                } else if i + from.len() <= n {
                    assert(to.subrange(i, i + from.len()) =~= found);
                    assert(occurs_at(to, from, i));
                } else {
                    let k = n - i;
                    assert(to.skip(to.len() - k) =~= found.take(k));
                    assert(ends_like_start(to, from));
                }
            }
        }
    } else {
        assert forall|i: int| !occurs_at(out, from, i) by {}
    }
}

/// Decoded flags hold no spelled out separator.
pub proof fn law_decoded_flags_hold_no_escape(encoded: Seq<char>)
    ensures
        !occurs(decoded_flags(encoded), "\\x1f"@),
{
    reveal_strlit("\\x1f");
    let from = "\\x1f"@;
    let to = seq!['\x1f'];
    assert(from =~= seq!['\\', 'x', '1', 'f']);
    assert forall|k: int| 0 < k < from.len() && k <= to.len() implies #[trigger] to.skip(
        to.len() - k,
    ) != from.take(k) by {
        assert(to.skip(0)[0] == '\x1f');
        assert(from.take(k)[0] == '\\');
    }
    law_replace_leaves_none(encoded, from, to);
}

/// No `${pwd}` is left in a value, for every execution root that does not hold
/// `${pwd}` itself, start with a character of it or end in the start of it. An
/// absolute Unix path starts with `/`, which is none of them.
pub proof fn law_no_pwd_is_left(value: Seq<char>, exec_root: Seq<char>)
    requires
        exec_root.len() > 0,
        !"${pwd}"@.contains(exec_root[0]),
        !occurs(exec_root, "${pwd}"@),
        !ends_like_start(exec_root, "${pwd}"@),
    ensures
        !occurs(with_pwd(value, exec_root), "${pwd}"@),
{
    reveal_strlit("${pwd}");
    law_replace_leaves_none(value, "${pwd}"@, exec_root);
}

/// Text without the separator is one piece, and a separator ends the piece
/// before it.
pub proof fn law_split(piece: Seq<char>, separator: char, rest: Seq<char>)
    requires
        !piece.contains(separator),
    ensures
        split(piece, separator) == seq![piece],
        split(piece + seq![separator] + rest, separator) == seq![piece] + split(rest, separator),
{
    lemma_find(piece, separator);
    lemma_split_concat(piece, rest, separator);
}

/// A line ends in `\n` or in `\r\n`, and the ending is no part of it. Behind the
/// last ending there is a line only where there is text.
pub proof fn law_lines(line: Seq<char>, rest: Seq<char>)
    requires
        !line.contains('\n'),
    ensures
        lines(Seq::empty()) == Seq::<Seq<char>>::empty(),
        line.len() > 0 ==> lines(line) == seq![line],
        lines(line + seq!['\r', '\n'] + rest) == seq![line] + lines(rest),
        line.len() == 0 || line.last() != '\r' ==> lines(line + seq!['\n'] + rest) == seq![line]
            + lines(rest),
{
    lemma_find(line, '\n');
    let tail = seq!['\n'] + rest;
    assert(find(tail, '\n') == 0);
    let plain = line + seq!['\n'] + rest;
    assert(plain =~= line + tail);
    lemma_find_concat(line, tail, '\n');
    assert(plain.take(line.len() as int) =~= line);
    assert(plain.skip(line.len() as int + 1) =~= rest);
    let longer = line.push('\r');
    assert(!longer.contains('\n')) by {
        if longer.contains('\n') {
            let k = choose|k: int| 0 <= k < longer.len() && longer[k] == '\n';
            assert(line[k] == '\n');
        }
    }
    lemma_find(longer, '\n');
    let both = line + seq!['\r', '\n'] + rest;
    assert(both =~= longer + tail);
    lemma_find_concat(longer, tail, '\n');
    assert(both.take(longer.len() as int) =~= longer);
    assert(longer.drop_last() =~= line);
    assert(both.skip(longer.len() as int + 1) =~= rest);
}

/// Lines that are complete are followed by the lines of what is appended.
pub proof fn law_lines_of_appended_text(text: Seq<char>, rest: Seq<char>)
    requires
        text.len() == 0 || text.last() == '\n',
    ensures
        lines(text + rest) == lines(text) + lines(rest),
    decreases text.len(),
{
    if text.len() == 0 {
        assert(text + rest =~= rest);
        assert(lines(text) + lines(rest) =~= lines(rest));
    } else {
        lemma_find(text, '\n');
        assert(text[text.len() - 1] == '\n');
        assert(text.contains('\n'));
        lemma_find_concat(text, rest, '\n');
        let i = find(text, '\n') as int;
        let after = text.skip(i + 1);
        assert((text + rest).take(i) =~= text.take(i));
        assert((text + rest).skip(i + 1) =~= after + rest);
        if after.len() > 0 {
            assert(after.last() == text.last());
        }
        law_lines_of_appended_text(after, rest);
        assert(lines(text + rest) =~= lines(text) + lines(rest));
    }
}

/// Nothing joined is nothing, one part joined is that part, and what is joined
/// in two groups has the separator between the groups.
pub proof fn law_join(a: Seq<Seq<char>>, part: Seq<char>, b: Seq<Seq<char>>, separator: Seq<char>)
    requires
        a.len() > 0,
        b.len() > 0,
    ensures
        join(Seq::empty(), separator) == Seq::<char>::empty(),
        join(seq![part], separator) == part,
        join(a + b, separator) == join(a, separator) + separator + join(b, separator),
    decreases b.len(),
{
    assert((a + b).drop_last() =~= a + b.drop_last());
    assert((a + b).last() == b.last());
    if b.len() == 1 {
        assert(a + b.drop_last() =~= a);
    } else {
        law_join(a, part, b.drop_last(), separator);
        assert(join(a + b, separator) =~= join(a, separator) + separator + join(b, separator));
    }
}

/// Parts that do not hold the separator come back out of what they are joined
/// to.
pub proof fn law_split_undoes_join(parts: Seq<Seq<char>>, separator: char)
    requires
        parts.len() > 0,
        forall|i: int| 0 <= i < parts.len() ==> !(#[trigger] parts[i]).contains(separator),
    ensures
        split(join(parts, seq![separator]), separator) == parts,
    decreases parts.len(),
{
    let last = parts.last();
    assert(last == parts[parts.len() - 1]);
    law_split(last, separator, last);
    if parts.len() == 1 {
        assert(parts =~= seq![last]);
    } else {
        let earlier = parts.drop_last();
        assert forall|i: int| 0 <= i < earlier.len() implies !(#[trigger] earlier[i]).contains(
            separator,
        ) by {
            assert(earlier[i] == parts[i]);
        }
        law_split_undoes_join(earlier, separator);
        lemma_split_concat(join(earlier, seq![separator]), last, separator);
        assert(earlier + seq![last] =~= parts);
    }
}

/// A pattern stands in a text exactly where the text is something, then the
/// pattern, then something.
pub proof fn law_occurs(s: Seq<char>, pattern: Seq<char>)
    ensures
        occurs(s, pattern) <==> exists|a: Seq<char>, b: Seq<char>| s == #[trigger] (a + pattern + b),
{
    if occurs(s, pattern) {
        let i = choose|i: int| occurs_at(s, pattern, i);
        let a = s.take(i);
        let b = s.skip(i + pattern.len());
        assert(s =~= a + s.subrange(i, i + pattern.len()) + b);
        assert(s == a + pattern + b);
    }
    if exists|a: Seq<char>, b: Seq<char>| s == #[trigger] (a + pattern + b) {
        let (a, b) = choose|a: Seq<char>, b: Seq<char>| s == #[trigger] (a + pattern + b);
        assert(s.subrange(a.len() as int, a.len() as int + pattern.len()) =~= pattern);
        assert(occurs_at(s, pattern, a.len() as int));
    }
}

/// The first occurrence is replaced, what stands before it stays, and what
/// follows it is treated in the same way.
pub proof fn law_replace_first(a: Seq<char>, from: Seq<char>, b: Seq<char>, to: Seq<char>)
    requires
        from.len() > 0,
        forall|i: int|
            0 <= i < a.len() ==> #[trigger] (a + from + b).subrange(i, i + from.len()) != from,
    ensures
        replace_all(a + from + b, from, to) == a + to + replace_all(b, from, to),
    decreases a.len(),
{
    let s = a + from + b;
    if a.len() == 0 {
        assert(s.subrange(0, from.len() as int) =~= from);
        assert(s.skip(from.len() as int) =~= b);
        assert(a + to =~= to);
    } else {
        let rest = a.skip(1);
        assert(s.subrange(0, 0int + from.len()) != from);
        assert(s.skip(1) =~= rest + from + b);
        assert forall|i: int| 0 <= i < rest.len() implies #[trigger] (rest + from + b).subrange(
            i,
            i + from.len(),
        ) != from by {
            assert(s.subrange(i + 1, i + 1 + from.len()) != from);
            assert((rest + from + b).subrange(i, i + from.len()) =~= s.subrange(
                i + 1,
                i + 1 + from.len(),
            ));
        }
        law_replace_first(rest, from, b, to);
        assert(replace_all(s, from, to) =~= a + to + replace_all(b, from, to));
    }
}

/// The empty pattern stands before every character and at the end.
pub proof fn law_replace_nothing(c: char, rest: Seq<char>, to: Seq<char>)
    ensures
        replace_all(Seq::empty(), Seq::empty(), to) == to,
        replace_all(seq![c] + rest, Seq::empty(), to) == to + seq![c] + replace_all(
            rest,
            Seq::empty(),
            to,
        ),
{
    assert((seq![c] + rest).skip(1) =~= rest);
}

/// Of two texts that differ first in one character, the one with the smaller
/// character comes before the other and not after it; a text comes before what
/// continues it, and not after it or itself.
pub proof fn law_order(start: Seq<char>, x: char, a: Seq<char>, y: char, b: Seq<char>)
    ensures
        x != y ==> (comes_before(start + seq![x] + a, start + seq![y] + b) <==> (x as int) < (
        y as int)),
        comes_before(start, start + seq![x] + a),
        !comes_before(start + seq![x] + a, start),
        !comes_before(start, start),
    decreases start.len(),
{
    lemma_before_irreflexive(start);
    let p = start + seq![x] + a;
    let q = start + seq![y] + b;
    if start.len() > 0 {
        law_order(start.skip(1), x, a, y, b);
        assert(p.skip(1) =~= start.skip(1) + seq![x] + a);
        assert(q.skip(1) =~= start.skip(1) + seq![y] + b);
    }
}

/// A part once is the part, not at all is nothing, and counts add up.
pub proof fn law_repeated(part: Seq<char>, m: nat, n: nat)
    ensures
        repeated(part, 0) == Seq::<char>::empty(),
        repeated(part, 1) == part,
        repeated(part, m + n) == repeated(part, m) + repeated(part, n),
    decreases n,
{
    reveal_with_fuel(repeated, 2);
    assert(repeated(part, 1) =~= part);
    if n == 0 {
        assert(repeated(part, m) + repeated(part, 0) =~= repeated(part, m));
    } else {
        law_repeated(part, m, (n - 1) as nat);
        assert(repeated(part, m + n) =~= repeated(part, m) + repeated(part, n));
    }
}

/// The number that digits stand for.
pub open spec fn number(s: Seq<char>) -> int
    decreases s.len(),
{
    if s.len() == 0 {
        0
    } else {
        number(s.drop_last()) * 10 + (s.last() as int - '0' as int)
    }
}

/// Digits, and no zero in front of others.
pub open spec fn is_number(s: Seq<char>) -> bool {
    &&& s.len() > 0
    &&& forall|i: int| 0 <= i < s.len() ==> '0' <= #[trigger] s[i] <= '9'
    &&& s[0] == '0' ==> s.len() == 1
}

proof fn lemma_digits(n: nat)
    ensures
        number(digits(n)) == n,
        is_number(digits(n)),
        n > 0 ==> digits(n)[0] != '0',
    decreases n,
{
    reveal_with_fuel(number, 2);
    if n < 10 {
        assert(digits(n).drop_last() =~= Seq::empty());
    } else {
        lemma_digits(n / 10);
        assert(digits(n).drop_last() =~= digits(n / 10));
        assert(digits(n)[0] == digits(n / 10)[0]);
    }
}

/// A number in decimal reads as that number: digits, behind a minus sign where
/// it is negative, with no zero in front.
pub proof fn law_decimal(n: int)
    ensures
        n >= 0 ==> is_number(decimal(n)) && number(decimal(n)) == n,
        n < 0 ==> decimal(n).len() > 0 && decimal(n)[0] == '-' && is_number(decimal(n).skip(1))
            && number(decimal(n).skip(1)) == -n,
{
    if n < 0 {
        lemma_digits((-n) as nat);
        assert(decimal(n).skip(1) =~= digits((-n) as nat));
    } else {
        lemma_digits(n as nat);
    }
}

/// Texts in upper case one after the other are the whole in upper case. A
/// letter from `a` to `z` becomes its capital, every other character of ASCII
/// stays, and any other becomes what Unicode says.
pub proof fn law_upper(a: Seq<char>, b: Seq<char>, c: char)
    ensures
        upper(a + b) == upper(a) + upper(b),
        'a' <= c <= 'z' ==> upper(seq![c]) == seq![(c as int - 'a' as int + 'A' as int) as char],
        (c as int) < 128 && !('a' <= c <= 'z') ==> upper(seq![c]) == seq![c],
        (c as int) >= 128 ==> upper(seq![c]) == unicode_upper(c),
    decreases b.len(),
{
    reveal_with_fuel(upper, 2);
    assert(seq![c].drop_last() =~= Seq::empty());
    assert(upper(seq![c]) =~= upper_char(c));
    if b.len() == 0 {
        assert(a + b =~= a);
        assert(upper(a) + upper(b) =~= upper(a));
    } else {
        assert((a + b).drop_last() =~= a + b.drop_last());
        law_upper(a, b.drop_last(), c);
        assert(upper(a + b) =~= upper(a) + upper(b));
    }
}

/// A pattern whose first character stands in it only once is not found across
/// the end of a text that does not hold it.
proof fn lemma_first_occurrence(a: Seq<char>, from: Seq<char>, b: Seq<char>)
    requires
        from.len() > 0,
        !occurs(a, from),
        forall|k: int| 0 < k < from.len() ==> #[trigger] from[k] != from[0],
    ensures
        forall|i: int|
            0 <= i < a.len() ==> #[trigger] (a + from + b).subrange(i, i + from.len()) != from,
{
    let s = a + from + b;
    assert forall|i: int| 0 <= i < a.len() implies #[trigger] s.subrange(i, i + from.len())
        != from by {
        let found = s.subrange(i, i + from.len());
        if found == from {
            if i + from.len() <= a.len() {
                assert(a.subrange(i, i + from.len()) =~= found);
                assert(occurs_at(a, from, i));
            } else {
                let k = a.len() - i;
                assert(found[k] == from[0]);
                assert(from[k] != from[0]);
            }
        }
    }
}

/// The first `${pwd}` of a value gives way to the execution root, what stands
/// before it stays, and what follows is treated in the same way; a value
/// without one stays as it is.
pub proof fn law_pwd_gives_way(before: Seq<char>, after: Seq<char>, exec_root: Seq<char>)
    requires
        !occurs(before, "${pwd}"@),
    ensures
        with_pwd(before, exec_root) == before,
        with_pwd(before + "${pwd}"@ + after, exec_root) == before + exec_root + with_pwd(
            after,
            exec_root,
        ),
{
    reveal_strlit("${pwd}");
    let from = "${pwd}"@;
    assert(from =~= seq!['$', '{', 'p', 'w', 'd', '}']);
    law_replace_without_occurrence(before, from, exec_root);
    lemma_first_occurrence(before, from, after);
    law_replace_first(before, from, after, exec_root);
}

/// The first `\x1f` that is spelled out gives way to that character, what
/// stands before it stays, and what follows is treated in the same way; flags
/// without one stay as they are.
pub proof fn law_escape_gives_way(before: Seq<char>, after: Seq<char>)
    requires
        !occurs(before, "\\x1f"@),
    ensures
        decoded_flags(before) == before,
        decoded_flags(before + "\\x1f"@ + after) == before + seq!['\x1f'] + decoded_flags(after),
{
    reveal_strlit("\\x1f");
    let from = "\\x1f"@;
    assert(from =~= seq!['\\', 'x', '1', 'f']);
    law_replace_without_occurrence(before, from, seq!['\x1f']);
    lemma_first_occurrence(before, from, after);
    law_replace_first(before, from, after, seq!['\x1f']);
}

/// A list of strings has as many texts, each that of the string at its place,
/// and a string that is there has its own.
pub proof fn law_texts(list: Seq<String>, i: int, s: Option<String>, b: Option<&str>)
    requires
        0 <= i < list.len(),
    ensures
        texts(list).len() == list.len(),
        texts(list)[i] == list[i]@,
        opt_text(s) is Some <==> s is Some,
        s is Some ==> opt_text(s)->0 == s->0@,
        opt_str(b) is Some <==> b is Some,
        b is Some ==> opt_str(b)->0 == b->0@,
{
}

} // verus!

use vstd::prelude::*;
use vstd::string::*;

verus! {

use crate::error::StatsError;

/// `n` copies of `c`.
pub open spec fn repeat_char(c: char, n: nat) -> Seq<char> {
    Seq::new(n, |_i: int| c)
}

/// The decimal digit for `d < 10`.
pub open spec fn digit_char(d: nat) -> char {
    seq!['0', '1', '2', '3', '4', '5', '6', '7', '8', '9'][d as int]
}

/// The decimal form of `n`, without leading zeros.
pub open spec fn decimal(n: nat) -> Seq<char>
    decreases n,
{
    if n < 10 {
        seq![digit_char(n)]
    } else {
        decimal(n / 10).push(digit_char(n % 10))
    }
}

/// Whether `n` is 1, 10, 100, ...
pub open spec fn is_power_of_ten(n: nat) -> bool
    decreases n,
{
    if n >= 10 && n % 10 == 0 {
        is_power_of_ten(n / 10)
    } else {
        n == 1
    }
}

/// The width of the value column for a largest value `m`: one more than
/// `floor(log10(m)) + 1`, as `ceil(log10(m)) + 1` gives it, so an exact
/// power of ten gets no spare column and 0 gets a width of 1.
pub open spec fn value_width(m: nat) -> nat {
    if m == 0 {
        1
    } else if is_power_of_ten(m) {
        decimal(m).len()
    } else {
        decimal(m).len() + 1
    }
}

/// `s` followed by spaces up to width `w`.
pub open spec fn pad_right(s: Seq<char>, w: nat) -> Seq<char> {
    if s.len() >= w {
        s
    } else {
        s + repeat_char(' ', (w - s.len()) as nat)
    }
}

/// `s` preceded by spaces up to width `w`.
pub open spec fn pad_left(s: Seq<char>, w: nat) -> Seq<char> {
    if s.len() >= w {
        s
    } else {
        repeat_char(' ', (w - s.len()) as nat) + s
    }
}

/// The text between columns.
pub open spec fn separator() -> Seq<char> {
    seq![' ', '|', ' ']
}

/// One row: the label, its value, and a bar of `value` marks.
pub open spec fn chart_line(label: Seq<char>, value: nat, label_width: nat, value_width: nat) -> Seq<
    char,
> {
    pad_right(label, label_width) + separator() + pad_left(decimal(value), value_width)
        + separator() + repeat_char('#', value)
}

/// The length of the longest label (0 for none).
pub open spec fn max_len(labels: Seq<Seq<char>>) -> nat
    decreases labels.len(),
{
    if labels.len() == 0 {
        0
    } else if max_len(labels.drop_last()) >= labels.last().len() {
        max_len(labels.drop_last())
    } else {
        labels.last().len()
    }
}

/// The largest value (0 for none).
pub open spec fn max_value(values: Seq<usize>) -> nat
    decreases values.len(),
{
    if values.len() == 0 {
        0
    } else if max_value(values.drop_last()) >= values.last() {
        max_value(values.drop_last())
    } else {
        values.last() as nat
    }
}

/// The rows of the chart, one per value, with shared column widths.
pub open spec fn chart_lines(values: Seq<usize>, labels: Seq<Seq<char>>) -> Seq<Seq<char>> {
    Seq::new(
        values.len(),
        |i: int|
            chart_line(
                labels[i],
                values[i] as nat,
                max_len(labels),
                value_width(max_value(values)),
            ),
    )
}

/// The lines joined by single newlines, with no newline at the end.
pub open spec fn join_lines(lines: Seq<Seq<char>>) -> Seq<char>
    decreases lines.len(),
{
    if lines.len() == 0 {
        Seq::empty()
    } else if lines.len() == 1 {
        lines[0]
    } else {
        join_lines(lines.drop_last()) + seq!['\n'] + lines.last()
    }
}

/// The whole chart text.
pub open spec fn chart_text(values: Seq<usize>, labels: Seq<Seq<char>>) -> Seq<char> {
    join_lines(chart_lines(values, labels))
}

/// The labels as character sequences.
pub open spec fn labels_view(labels: Seq<&str>) -> Seq<Seq<char>> {
    labels.map_values(|l: &str| l@)
}

/// How many times `c` occurs in `s`.
pub open spec fn count_char(s: Seq<char>, c: char) -> nat
    decreases s.len(),
{
    if s.len() == 0 {
        0
    } else {
        count_char(s.drop_last(), c) + if s.last() == c {
            1nat
        } else {
            0nat
        }
    }
}

/// `s` cut at each newline; text with no newline is a single line.
pub open spec fn split_lines(s: Seq<char>) -> Seq<Seq<char>>
    decreases s.len(),
{
    if s.len() == 0 {
        seq![Seq::empty()]
    } else {
        let prev = split_lines(s.drop_last());
        if s.last() == '\n' {
            prev.push(Seq::empty())
        } else {
            prev.update(prev.len() - 1, prev.last().push(s.last()))
        }
    }
}

/// The number of marks on each line of a text.
pub open spec fn marks_per_line(text: Seq<char>) -> Seq<nat> {
    split_lines(text).map_values(|l: Seq<char>| count_char(l, '#'))
}

/// Whether no label holds a newline or a mark.
pub open spec fn plain_labels(labels: Seq<Seq<char>>) -> bool {
    forall|i: int, j: int|
        0 <= i < labels.len() && 0 <= j < labels[i].len() ==> #[trigger] labels[i][j] != '\n'
            && labels[i][j] != '#'
}

proof fn lemma_count_concat(a: Seq<char>, b: Seq<char>, c: char)
    ensures
        count_char(a + b, c) == count_char(a, c) + count_char(b, c),
    decreases b.len(),
{
    if b.len() == 0 {
        assert(a + b =~= a);
    } else {
        assert((a + b).drop_last() =~= a + b.drop_last());
        lemma_count_concat(a, b.drop_last(), c);
    }
}

proof fn lemma_count_absent(s: Seq<char>, c: char)
    requires
        forall|i: int| 0 <= i < s.len() ==> s[i] != c,
    ensures
        count_char(s, c) == 0,
    decreases s.len(),
{
    if s.len() > 0 {
        lemma_count_absent(s.drop_last(), c);
    }
}

proof fn lemma_count_repeat(c: char, n: nat)
    ensures
        count_char(repeat_char(c, n), c) == n,
    decreases n,
{
    if n > 0 {
        assert(repeat_char(c, n).drop_last() =~= repeat_char(c, (n - 1) as nat));
        lemma_count_repeat(c, (n - 1) as nat);
    }
}

proof fn lemma_decimal_plain(n: nat)
    ensures
        forall|i: int| 0 <= i < decimal(n).len() ==> decimal(n)[i] != '\n' && decimal(n)[i] != '#',
    decreases n,
{
    let d = n % 10;
    assert(d == 0 || d == 1 || d == 2 || d == 3 || d == 4 || d == 5 || d == 6 || d == 7 || d == 8
        || d == 9);
    assert(digit_char(d) != '\n' && digit_char(d) != '#');
    if n >= 10 {
        lemma_decimal_plain(n / 10);
        assert(decimal(n) == decimal(n / 10).push(digit_char(d)));
    } else {
        assert(decimal(n) == seq![digit_char(d)]);
    }
}

proof fn lemma_line_plain(label: Seq<char>, value: nat, label_width: nat, value_width: nat)
    requires
        forall|j: int| 0 <= j < label.len() ==> label[j] != '\n' && label[j] != '#',
    ensures
        forall|j: int|
            0 <= j < chart_line(label, value, label_width, value_width).len() ==> chart_line(
                label,
                value,
                label_width,
                value_width,
            )[j] != '\n',
        count_char(chart_line(label, value, label_width, value_width), '#') == value,
{
    lemma_decimal_plain(value);
    let head = pad_right(label, label_width) + separator() + pad_left(decimal(value), value_width)
        + separator();
    assert(forall|j: int| 0 <= j < head.len() ==> head[j] != '\n' && head[j] != '#');
    lemma_count_absent(head, '#');
    lemma_count_repeat('#', value);
    lemma_count_concat(head, repeat_char('#', value), '#');
}

proof fn lemma_split_nonempty(s: Seq<char>)
    ensures
        split_lines(s).len() >= 1,
    decreases s.len(),
{
    if s.len() > 0 {
        lemma_split_nonempty(s.drop_last());
    }
}

proof fn lemma_split_append(a: Seq<char>, t: Seq<char>)
    requires
        forall|j: int| 0 <= j < t.len() ==> t[j] != '\n',
    ensures
        split_lines(a + t) == split_lines(a).update(
            split_lines(a).len() - 1,
            split_lines(a).last() + t,
        ),
    decreases t.len(),
{
    lemma_split_nonempty(a);
    let p = split_lines(a);
    if t.len() == 0 {
        assert(a + t =~= a);
        assert(p.update(p.len() - 1, p.last() + t) =~= p);
    } else {
        let init = t.drop_last();
        assert((a + t).drop_last() =~= a + init);
        lemma_split_append(a, init);
        assert((p.last() + init).push(t.last()) =~= p.last() + t);
        assert(split_lines(a + t) =~= p.update(p.len() - 1, p.last() + t));
    }
}

proof fn lemma_split_join(lines: Seq<Seq<char>>)
    requires
        lines.len() >= 1,
        forall|i: int, j: int|
            0 <= i < lines.len() && 0 <= j < lines[i].len() ==> #[trigger] lines[i][j] != '\n',
    ensures
        split_lines(join_lines(lines)) == lines,
    decreases lines.len(),
{
    let last = lines.last();
    assert(forall|j: int| 0 <= j < last.len() ==> last[j] != '\n') by {
        assert(forall|j: int| 0 <= j < last.len() ==> lines[lines.len() - 1][j] == last[j]);
    }
    if lines.len() == 1 {
        let empty = Seq::<char>::empty();
        lemma_split_append(empty, last);
        assert(empty + last =~= last);
        assert(split_lines(empty).update(0, empty + last) =~= lines);
    } else {
        let init = lines.drop_last();
        let a = join_lines(init) + seq!['\n'];
        assert(a.drop_last() =~= join_lines(init));
        lemma_split_join(init);
        lemma_split_append(a, last);
        assert(Seq::<char>::empty() + last =~= last);
        assert(split_lines(join_lines(lines)) =~= lines);
    }
}

/// A chart of labels free of newlines and marks has one line per value,
/// and each line holds exactly as many marks as its value.
pub proof fn lemma_chart_lines(values: Seq<usize>, labels: Seq<Seq<char>>)
    requires
        values.len() == labels.len(),
        values.len() > 0,
        plain_labels(labels),
    ensures
        split_lines(chart_text(values, labels)).len() == values.len(),
        forall|i: int|
            0 <= i < values.len() ==> count_char(
                #[trigger] split_lines(chart_text(values, labels))[i],
                '#',
            ) == values[i],
{
    let lines = chart_lines(values, labels);
    let lw = max_len(labels);
    let vw = value_width(max_value(values));
    assert forall|i: int| 0 <= i < lines.len() implies (forall|j: int|
        0 <= j < lines[i].len() ==> #[trigger] lines[i][j] != '\n') && count_char(lines[i], '#')
        == values[i] by {
        assert(forall|j: int|
            0 <= j < labels[i].len() ==> labels[i][j] != '\n' && labels[i][j] != '#');
        lemma_line_plain(labels[i], values[i] as nat, lw, vw);
    }
    lemma_split_join(lines);
}

/// Counting the marks on each line of a chart gives back its values, for
/// labels free of newlines and marks.
pub proof fn lemma_chart_round_trip(values: Seq<usize>, labels: Seq<Seq<char>>)
    requires
        values.len() == labels.len(),
        values.len() > 0,
        plain_labels(labels),
    ensures
        marks_per_line(chart_text(values, labels)) == values.map_values(|v: usize| v as nat),
{
    lemma_chart_lines(values, labels);
    assert(marks_per_line(chart_text(values, labels)) =~= values.map_values(|v: usize| v as nat));
}

fn push_repeat(out: &mut String, piece: &str, n: usize)
    requires
        piece@.len() == 1,
    ensures
        final(out)@ == old(out)@ + repeat_char(piece@[0], n as nat),
{
    let ghost start = out@;
    let mut i: usize = 0;
    while i < n
        invariant
            i <= n,
            piece@.len() == 1,
            out@ == start + repeat_char(piece@[0], i as nat),
        decreases n - i,
    {
        assert(start + repeat_char(piece@[0], i as nat + 1) =~= start + repeat_char(
            piece@[0],
            i as nat,
        ) + piece@);
        out.append(piece);
        i = i + 1;
    }
}

fn push_digit(out: &mut String, d: usize)
    requires
        d < 10,
    ensures
        final(out)@ == old(out)@.push(digit_char(d as nat)),
{
    let digits = "0123456789";
    proof {
        reveal_strlit("0123456789");
    }
    assert(digits@ =~= seq!['0', '1', '2', '3', '4', '5', '6', '7', '8', '9']);
    let one = digits.substring_char(d, d + 1);
    assert(one@ =~= seq![digit_char(d as nat)]);
    out.append(one);
    assert(final(out)@ =~= old(out)@.push(digit_char(d as nat)));
}

fn push_decimal(out: &mut String, n: usize)
    ensures
        final(out)@ == old(out)@ + decimal(n as nat),
    decreases n,
{
    if n >= 10 {
        push_decimal(out, n / 10);
    }
    push_digit(out, n % 10);
    assert(final(out)@ =~= old(out)@ + decimal(n as nat));
}

proof fn lemma_decimal_len(n: nat)
    ensures
        decimal(n).len() <= n / 10 + 1,
    decreases n,
{
    if n >= 10 {
        lemma_decimal_len(n / 10);
    }
}

fn is_power_of_ten_exec(n: usize) -> (r: bool)
    ensures
        r == is_power_of_ten(n as nat),
{
    let mut x: usize = n;
    while x >= 10 && x % 10 == 0
        invariant
            is_power_of_ten(x as nat) == is_power_of_ten(n as nat),
        decreases x,
    {
        x = x / 10;
    }
    x == 1
}

fn column_width(m: usize) -> (w: usize)
    ensures
        w == value_width(m as nat),
{
    if m == 0 {
        return 1;
    }
    let mut digits = String::new();
    push_decimal(&mut digits, m);
    let len = digits.as_str().unicode_len();
    proof {
        lemma_decimal_len(m as nat);
    }
    if is_power_of_ten_exec(m) {
        len
    } else {
        len + 1
    }
}

fn push_line(out: &mut String, label: &str, value: usize, label_width: usize, value_width: usize)
    ensures
        final(out)@ == old(out)@ + chart_line(
            label@,
            value as nat,
            label_width as nat,
            value_width as nat,
        ),
{
    let ghost start = out@;
    let space = " ";
    let sep = " | ";
    let mark = "#";
    proof {
        reveal_strlit(" ");
        reveal_strlit(" | ");
        reveal_strlit("#");
    }
    assert(sep@ =~= separator());
    out.append(label);
    let len = label.unicode_len();
    if len < label_width {
        push_repeat(out, space, label_width - len);
    }
    assert(out@ =~= start + pad_right(label@, label_width as nat));
    out.append(sep);
    let ghost before_value = out@;
    let mut digits = String::new();
    push_decimal(&mut digits, value);
    let digits_len = digits.as_str().unicode_len();
    if digits_len < value_width {
        push_repeat(out, space, value_width - digits_len);
    }
    out.append(digits.as_str());
    assert(out@ =~= before_value + pad_left(decimal(value as nat), value_width as nat));
    out.append(sep);
    push_repeat(out, mark, value);
    assert(out@ =~= start + chart_line(
        label@,
        value as nat,
        label_width as nat,
        value_width as nat,
    ));
}

/// Renders `values` against `labels` as a text bar chart, one line per
/// pair in order: the label padded to the longest label's length, " | ",
/// the value right-aligned to `value_width` of the largest value, " | ",
/// and one `#` per unit of the value. Lines are joined by `\n`, with none
/// at the end.
///
/// Fails with `LengthMismatch` when the two slices differ in length, and
/// with `EmptyInput` when they are both empty.
pub fn bar_chart(values: &[usize], labels: &[&str]) -> (r: Result<String, StatsError>)
    ensures
        values@.len() != labels@.len() ==> r == Err::<String, StatsError>(
            StatsError::LengthMismatch,
        ),
        values@.len() == labels@.len() && values@.len() == 0 ==> r == Err::<String, StatsError>(
            StatsError::EmptyInput,
        ),
        values@.len() == labels@.len() && values@.len() > 0 ==> r is Ok && r->Ok_0@ == chart_text(
            values@,
            labels_view(labels@),
        ),
{
    let n = values.len();
    if n != labels.len() {
        return Err(StatsError::LengthMismatch);
    }
    if n == 0 {
        return Err(StatsError::EmptyInput);
    }
    let ghost names = labels_view(labels@);
    let mut label_width: usize = 0;
    let mut largest: usize = 0;
    let mut i: usize = 0;
    while i < n
        invariant
            n == values@.len(),
            n == labels@.len(),
            names == labels_view(labels@),
            i <= n,
            label_width == max_len(names.take(i as int)),
            largest == max_value(values@.take(i as int)),
        decreases n - i,
    {
        assert(names.take(i as int + 1).drop_last() =~= names.take(i as int));
        assert(values@.take(i as int + 1).drop_last() =~= values@.take(i as int));
        let len = labels[i].unicode_len();
        if len > label_width {
            label_width = len;
        }
        if values[i] > largest {
            largest = values[i];
        }
        i = i + 1;
    }
    assert(names.take(n as int) =~= names);
    assert(values@.take(n as int) =~= values@);
    let number_width = column_width(largest);
    let ghost lines = chart_lines(values@, names);
    let newline = "\n";
    proof {
        reveal_strlit("\n");
    }
    let mut out = String::new();
    let mut k: usize = 0;
    while k < n
        invariant
            n == values@.len(),
            n == labels@.len(),
            names == labels_view(labels@),
            lines == chart_lines(values@, names),
            label_width == max_len(names),
            number_width == value_width(max_value(values@)),
            newline@ == seq!['\n'],
            k <= n,
            out@ == join_lines(lines.take(k as int)),
        decreases n - k,
    {
        let ghost prefix = out@;
        assert(lines.take(k as int + 1).drop_last() =~= lines.take(k as int));
        if k > 0 {
            out.append(newline);
        }
        push_line(&mut out, labels[k], values[k], label_width, number_width);
        assert(names[k as int] == labels@[k as int]@);
        if k == 0 {
            assert(out@ =~= join_lines(lines.take(1)));
        } else {
            assert(out@ =~= prefix + seq!['\n'] + lines[k as int]);
        }
        k = k + 1;
    }
    assert(lines.take(n as int) =~= lines);
    Ok(out)
}

} // verus!

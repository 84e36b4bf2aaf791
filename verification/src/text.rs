//! Comma-separated tables as text: lines, cells and surrounding white space.
use vstd::prelude::*;

verus! {

/// Unicode white space.
pub open spec fn white(c: char) -> bool {
    let n = c as u32;
    ||| 0x9 <= n <= 0xd
    ||| n == 0x20
    ||| n == 0x85
    ||| n == 0xa0
    ||| n == 0x1680
    ||| 0x2000 <= n <= 0x200a
    ||| n == 0x2028
    ||| n == 0x2029
    ||| n == 0x202f
    ||| n == 0x205f
    ||| n == 0x3000
}

fn is_white(c: char) -> (r: bool)
    ensures
        r == white(c),
{
    let n: u32 = c as u32;
    (0x9 <= n && n <= 0xd) || n == 0x20 || n == 0x85 || n == 0xa0 || n == 0x1680 || (0x2000 <= n
        && n <= 0x200a) || n == 0x2028 || n == 0x2029 || n == 0x202f || n == 0x205f || n == 0x3000
}

/// The pieces between the separators: one more than there are separators.
pub open spec fn pieces(s: Seq<char>, separator: char) -> Seq<Seq<char>>
    decreases s.len(),
{
    if s.len() == 0 {
        seq![Seq::empty()]
    } else {
        let before = pieces(s.drop_last(), separator);
        if s.last() == separator {
            before.push(Seq::empty())
        } else {
            before.drop_last().push(before.last().push(s.last()))
        }
    }
}

/// What is left without white space at both ends.
pub open spec fn trimmed(s: Seq<char>) -> Seq<char>
    decreases s.len(),
{
    if s.len() == 0 {
        s
    } else if white(s[0]) {
        trimmed(s.skip(1))
    } else if white(s.last()) {
        trimmed(s.drop_last())
    } else {
        s
    }
}

/// Nothing but white space.
pub open spec fn blank(s: Seq<char>) -> bool {
    forall|i: int| 0 <= i < s.len() ==> white(#[trigger] s[i])
}

/// The characters of every piece.
pub open spec fn contents(v: Seq<Vec<char>>) -> Seq<Seq<char>> {
    v.map_values(|p: Vec<char>| p@)
}

pub proof fn lemma_pieces_nonempty(s: Seq<char>, separator: char)
    ensures
        pieces(s, separator).len() > 0,
    decreases s.len(),
{
    if s.len() > 0 {
        lemma_pieces_nonempty(s.drop_last(), separator);
    }
}

fn split(s: &Vec<char>, separator: char) -> (r: Vec<Vec<char>>)
    ensures
        contents(r@) == pieces(s@, separator),
        r@.len() > 0,
{
    let mut out: Vec<Vec<char>> = Vec::new();
    let mut current: Vec<char> = Vec::new();
    let mut k: usize = 0;
    while k < s.len()
        invariant
            k <= s@.len(),
            contents(out@).push(current@) == pieces(s@.take(k as int), separator),
        decreases s@.len() - k,
    {
        let c: char = s[k];
        let ghost before = contents(out@).push(current@);
        assert(s@.take(k + 1).drop_last() =~= s@.take(k as int));
        if c == separator {
            let ghost done = current@;
            let ghost so_far = out@;
            out.push(current);
            current = Vec::new();
            assert(contents(out@) =~= contents(so_far).push(done));
            assert(contents(out@).push(current@) =~= before.push(Seq::empty()));
        } else {
            current.push(c);
            assert(before.drop_last() =~= contents(out@));
        }
        k = k + 1;
    }
    assert(s@.take(k as int) =~= s@);
    let ghost so_far = out@;
    let ghost last = current@;
    out.push(current);
    assert(contents(out@) =~= contents(so_far).push(last));
    out
}

fn trim(s: &Vec<char>) -> (r: Vec<char>)
    ensures
        r@ == trimmed(s@),
{
    let mut low: usize = 0;
    let mut high: usize = s.len();
    assert(s@.subrange(0, s@.len() as int) =~= s@);
    while low < high && is_white(s[low])
        invariant
            low <= high == s@.len(),
            trimmed(s@) == trimmed(s@.subrange(low as int, high as int)),
        decreases high - low,
    {
        assert(s@.subrange(low as int, high as int).skip(1) =~= s@.subrange(
            low + 1,
            high as int,
        ));
        low = low + 1;
    }
    while low < high && is_white(s[high - 1])
        invariant
            low <= high <= s@.len(),
            low < high ==> !white(s@[low as int]),
            trimmed(s@) == trimmed(s@.subrange(low as int, high as int)),
        decreases high - low,
    {
        assert(s@.subrange(low as int, high as int).drop_last() =~= s@.subrange(
            low as int,
            high - 1,
        ));
        high = high - 1;
    }
    let mut out: Vec<char> = Vec::new();
    let mut k: usize = low;
    while k < high
        invariant
            low <= k <= high <= s@.len(),
            out@ == s@.subrange(low as int, k as int),
        decreases high - k,
    {
        out.push(s[k]);
        k = k + 1;
        assert(out@ =~= s@.subrange(low as int, k as int));
    }
    out
}

fn is_blank(s: &Vec<char>) -> (r: bool)
    ensures
        r == blank(s@),
{
    let mut k: usize = 0;
    while k < s.len()
        invariant
            k <= s@.len(),
            forall|i: int| 0 <= i < k ==> white(#[trigger] s@[i]),
        decreases s@.len() - k,
    {
        if !is_white(s[k]) {
            return false;
        }
        k = k + 1;
    }
    true
}

/// The first `count` cells of a line, without surrounding white space.
pub open spec fn cells(line: Seq<char>, count: int) -> Seq<Seq<char>> {
    pieces(line, ',').take(count).map_values(|c: Seq<char>| trimmed(c))
}

/// The lines that are not blank.
pub open spec fn filled_lines(text: Seq<char>) -> Seq<Seq<char>> {
    pieces(text, '\n').filter(|line: Seq<char>| !blank(line))
}

/// Every line that is not blank has `count` cells or more.
pub open spec fn wide_enough(text: Seq<char>, count: int) -> bool {
    forall|i: int|
        0 <= i < filled_lines(text).len() ==> pieces(#[trigger] filled_lines(text)[i], ',').len()
            >= count
}

/// The cells of the table, row by row.
pub open spec fn table_cells(text: Seq<char>, count: int) -> Seq<Seq<Seq<char>>> {
    filled_lines(text).map_values(|line: Seq<char>| cells(line, count))
}

/// The contents of a table of text.
pub open spec fn table_contents(rows: Seq<Vec<Vec<char>>>) -> Seq<Seq<Seq<char>>> {
    rows.map_values(|row: Vec<Vec<char>>| contents(row@))
}

fn read_cells(line: &Vec<char>, count: usize) -> (r: Option<Vec<Vec<char>>>)
    ensures
        r is Some <==> pieces(line@, ',').len() >= count,
        r matches Some(row) ==> contents(row@) == cells(line@, count as int),
{
    let parts: Vec<Vec<char>> = split(line, ',');
    assert(contents(parts@).len() == parts@.len());
    if parts.len() < count {
        return None;
    }
    let mut row: Vec<Vec<char>> = Vec::new();
    let mut k: usize = 0;
    while k < count
        invariant
            k <= count <= parts@.len(),
            contents(parts@) == pieces(line@, ','),
            contents(row@) == cells(line@, k as int),
        decreases count - k,
    {
        let ghost so_far = row@;
        let cell: Vec<char> = trim(&parts[k]);
        let ghost added = cell@;
        row.push(cell);
        k = k + 1;
        proof {
            assert(contents(parts@)[k - 1] == parts@[k - 1]@);
            assert(contents(row@) =~= contents(so_far).push(added));
            assert(cells(line@, k as int) =~= cells(line@, k - 1).push(added));
        }
    }
    Some(row)
}

/// Splits a table into cells: `count` of every line that is not blank. `None`
/// if a line has fewer.
pub fn read_table(text: &Vec<char>, count: usize) -> (r: Option<Vec<Vec<Vec<char>>>>)
    ensures
        r is Some <==> wide_enough(text@, count as int),
        r matches Some(rows) ==> table_contents(rows@) == table_cells(text@, count as int),
{
    let lines: Vec<Vec<char>> = split(text, '\n');
    let ghost all = pieces(text@, '\n');
    let ghost keep = |line: Seq<char>| !blank(line);
    let mut rows: Vec<Vec<Vec<char>>> = Vec::new();
    let mut k: usize = 0;
    proof {
        assert(all.take(0).filter(keep) =~= Seq::<Seq<char>>::empty()) by {
            reveal(Seq::filter);
        }
    }
    while k < lines.len()
        invariant
            k <= lines@.len() == all.len(),
            all == pieces(text@, '\n'),
            contents(lines@) == all,
            keep == (|line: Seq<char>| !blank(line)),
            table_contents(rows@) == all.take(k as int).filter(keep).map_values(
                |line: Seq<char>| cells(line, count as int),
            ),
            forall|i: int|
                0 <= i < all.take(k as int).filter(keep).len() ==> pieces(
                    #[trigger] all.take(k as int).filter(keep)[i],
                    ',',
                ).len() >= count,
        decreases lines@.len() - k,
    {
        let ghost line = lines@[k as int]@;
        let ghost before = all.take(k as int).filter(keep);
        let ghost so_far = rows@;
        proof {
            assert(contents(lines@)[k as int] == line);
            assert(all.take(k + 1).drop_last() =~= all.take(k as int));
            assert(all.take(k + 1).last() == line);
            assert(all.take(k + 1).filter(keep) == if keep(line) {
                before.push(line)
            } else {
                before
            }) by {
                reveal(Seq::filter);
            }
        }
        if !is_blank(&lines[k]) {
            match read_cells(&lines[k], count) {
                Some(row) => {
                    let ghost added = contents(row@);
                    rows.push(row);
                    proof {
                        assert(table_contents(rows@) =~= table_contents(so_far).push(added));
                        assert(before.push(line).map_values(
                            |l: Seq<char>| cells(l, count as int),
                        ) =~= before.map_values(|l: Seq<char>| cells(l, count as int)).push(added));
                    }
                },
                None => {
                    proof {
                        let at: int = before.len() as int;
                        lemma_filter_prefix(all, k + 1);
                        assert(filled_lines(text@)[at] == all.take(k + 1).filter(keep)[at]);
                    }
                    return None;
                },
            }
        }
        k = k + 1;
    }
    assert(all.take(k as int) =~= all);
    Some(rows)
}

/// The filled lines of a prefix are a prefix of the filled lines.
proof fn lemma_filter_prefix(all: Seq<Seq<char>>, k: int)
    requires
        0 <= k <= all.len(),
    ensures
        ({
            let keep = |line: Seq<char>| !blank(line);
            let head = all.take(k).filter(keep);
            &&& head.len() <= all.filter(keep).len()
            &&& forall|i: int| 0 <= i < head.len() ==> head[i] == #[trigger] all.filter(keep)[i]
        }),
    decreases all.len() - k,
{
    let keep = |line: Seq<char>| !blank(line);
    if k < all.len() {
        lemma_filter_prefix(all, k + 1);
        let longer = all.take(k + 1);
        assert(longer.drop_last() =~= all.take(k));
        reveal(Seq::filter);
        let head = all.take(k).filter(keep);
        assert(longer.filter(keep) == if keep(longer.last()) {
            head.push(longer.last())
        } else {
            head
        });
        assert forall|i: int| 0 <= i < head.len() implies head[i] == #[trigger] all.filter(
            keep,
        )[i] by {
            assert(head[i] == longer.filter(keep)[i]);
        }
    } else {
        assert(all.take(k) =~= all);
    }
}

} // verus!

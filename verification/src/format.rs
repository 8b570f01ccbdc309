//! The textual problem format.
//!
//! A problem is written line by line; blank lines count for nothing. The
//! first line holds the number of nodes, the number of atom types `k` and the
//! number of edges `a`. Then come, where `k` is not zero, one line with the `k`
//! quotas; `k` lines with the `k` energies of one row of the matrix each; and
//! `a` lines with the two nodes of one edge each. Numbers on a line are
//! separated by single spaces. What follows the last edge is not read.
use vstd::prelude::*;
use crate::graph::Edge;
use crate::problem::{refusal, InvalidInstance, Problem, ProblemInstance};
use crate::text::{lemma_split_nonempty, nested_view, number_in, read_number, split, split_bytes};

verus! {

/// Why a text is not a problem description.
#[derive(Debug, Clone, Copy, PartialEq, Eq, Structural)]
pub enum ParseError {
    /// The text ended where another line was due; `lines` is the number of lines it has.
    UnexpectedEnd { lines: usize },
    /// The line, counted from zero, does not hold as many numbers as it must.
    TokenCount { line: usize, expected: usize, found: usize },
    /// The token, counted from zero on its line, is not a number of the range asked for.
    BadNumber { line: usize, token: usize },
}

/// The line without the carriage return that may end it.
pub open spec fn content(line: Seq<u8>) -> Seq<u8> {
    if line.len() > 0 && line.last() == 13 {
        line.drop_last()
    } else {
        line
    }
}

/// The first line at or after `from` that is not blank, or the number of lines if there is none.
pub open spec fn skip_blank(lines: Seq<Seq<u8>>, from: int) -> int
    decreases lines.len() - from,
{
    if 0 <= from < lines.len() && content(lines[from]).len() == 0 {
        skip_blank(lines, from + 1)
    } else {
        from
    }
}

/// The numbers that the tokens write, or the position of the first token that writes none.
pub open spec fn row_values(tokens: Seq<Seq<u8>>, signed: bool, lo: i128, hi: i128) -> Result<Seq<i128>, int>
    decreases tokens.len(),
{
    if tokens.len() == 0 {
        Ok(Seq::empty())
    } else {
        match row_values(tokens.drop_last(), signed, lo, hi) {
            Err(i) => Err(i),
            Ok(values) => match number_in(tokens.last(), signed, lo as int, hi as int) {
                Some(v) => Ok(values.push(v as i128)),
                None => Err(tokens.len() - 1),
            },
        }
    }
}

/// Some rows of numbers, and the line after the last of them.
pub struct Block {
    /// The rows, one per line read.
    pub rows: Seq<Seq<i128>>,
    /// The line at which reading goes on.
    pub next: int,
}

/// The next line that is not blank, read as a row of `width` numbers, appended to `block`.
pub open spec fn read_line(lines: Seq<Seq<u8>>, block: Block, width: int, signed: bool, lo: i128, hi: i128) -> Result<
    Block,
    ParseError,
> {
    let at = skip_blank(lines, block.next);
    if at >= lines.len() {
        Err(ParseError::UnexpectedEnd { lines: lines.len() as usize })
    } else {
        let tokens = split(content(lines[at]), 32);
        if tokens.len() != width {
            Err(ParseError::TokenCount { line: at as usize, expected: width as usize, found: tokens.len() as usize })
        } else {
            match row_values(tokens, signed, lo, hi) {
                Err(i) => Err(ParseError::BadNumber { line: at as usize, token: i as usize }),
                Ok(values) => Ok(Block { rows: block.rows.push(values), next: at + 1 }),
            }
        }
    }
}

/// `count` rows of `width` numbers each, read from the lines at and after
/// `start` that are not blank, or the first error met.
pub open spec fn read_block(
    lines: Seq<Seq<u8>>,
    start: int,
    count: nat,
    width: int,
    signed: bool,
    lo: i128,
    hi: i128,
) -> Result<Block, ParseError>
    decreases count,
{
    if count == 0 {
        Ok(Block { rows: Seq::empty(), next: start })
    } else {
        match read_block(lines, start, (count - 1) as nat, width, signed, lo, hi) {
            Err(e) => Err(e),
            Ok(block) => read_line(lines, block, width, signed, lo, hi),
        }
    }
}

/// The problem that the rows of the header, the quotas, the energies and the edges describe.
pub open spec fn described(header: Block, quotas: Block, energies: Block, edges: Block) -> Problem {
    let k = header.rows[0][1] as int;
    let a = header.rows[0][2] as int;
    Problem {
        node_count: header.rows[0][0] as nat,
        quota: Seq::new(k as nat, |i: int| quotas.rows[0][i] as u32),
        energy: Seq::new(k as nat, |r: int| Seq::new(k as nat, |c: int| energies.rows[r][c] as i32)),
        edges: Seq::new(a as nat, |i: int| (edges.rows[i][0] as usize, edges.rows[i][1] as usize)),
    }
}

/// The problem that the lines describe, or the first error met.
pub open spec fn parsed_lines(lines: Seq<Seq<u8>>) -> Result<Problem, ParseError> {
    match read_block(lines, 0, 1, 3, false, 0, usize::MAX as i128) {
        Err(e) => Err(e),
        Ok(header) => {
            let k = header.rows[0][1] as int;
            let a = header.rows[0][2] as int;
            let quota_lines: nat = if k == 0 {
                0
            } else {
                1
            };
            match read_block(lines, header.next, quota_lines, k, false, 0, u32::MAX as i128) {
                Err(e) => Err(e),
                Ok(quotas) => match read_block(lines, quotas.next, k as nat, k, true, i32::MIN as i128, i32::MAX as i128) {
                    Err(e) => Err(e),
                    Ok(energies) => match read_block(lines, energies.next, a as nat, 2, false, 0, usize::MAX as i128) {
                        Err(e) => Err(e),
                        Ok(edges) => Ok(described(header, quotas, energies, edges)),
                    },
                },
            }
        },
    }
}

/// The problem that the text describes, or the first error met.
pub open spec fn parsed(text: Seq<u8>) -> Result<Problem, ParseError> {
    parsed_lines(split(text, 10))
}

/// An error met while reading a block is the error of every longer block.
pub proof fn lemma_block_error_stays(
    lines: Seq<Seq<u8>>,
    start: int,
    count: nat,
    more: nat,
    width: int,
    signed: bool,
    lo: i128,
    hi: i128,
)
    requires
        count <= more,
        read_block(lines, start, count, width, signed, lo, hi) is Err,
    ensures
        read_block(lines, start, more, width, signed, lo, hi) == read_block(lines, start, count, width, signed, lo, hi),
    decreases more,
{
    if count < more {
        lemma_block_error_stays(lines, start, count, (more - 1) as nat, width, signed, lo, hi);
    }
}

/// A problem description as read, not yet validated.
#[derive(Debug, Clone, PartialEq, Eq)]
pub struct ProblemDescription {
    /// The number of nodes.
    pub node_count: usize,
    /// The quota of each atom type.
    pub atom_quota: Vec<u32>,
    /// The energy matrix, row by row.
    pub energy: Vec<Vec<i32>>,
    /// The directed edges.
    pub edges: Vec<Edge>,
}

impl View for ProblemDescription {
    type V = Problem;

    open spec fn view(&self) -> Problem {
        Problem {
            node_count: self.node_count as nat,
            quota: self.atom_quota@,
            energy: nested_view(self.energy@),
            edges: self.edges@,
        }
    }
}

/// Why a text gave no problem instance.
#[derive(Debug, Clone, Copy, PartialEq, Eq, Structural)]
pub enum LoadError {
    /// The text is not a problem description.
    Syntax(ParseError),
    /// The description is not a valid instance.
    Invalid(InvalidInstance),
}

/// The length of the line without the carriage return that may end it.
fn content_length(line: &Vec<u8>) -> (n: usize)
    ensures
        n == content(line@).len(),
        n <= line.len(),
        content(line@) == line@.subrange(0, n as int),
{
    let n: usize = line.len();
    if n > 0 && line[n - 1] == 13 {
        assert(line@.drop_last() =~= line@.subrange(0, n - 1));
        n - 1
    } else {
        assert(line@ =~= line@.subrange(0, n as int));
        n
    }
}

/// Reads the numbers that the tokens write.
fn read_row(tokens: &Vec<Vec<u8>>, signed: bool, lo: i128, hi: i128) -> (r: Result<Vec<i128>, usize>)
    requires
        -0x1_0000_0000_0000_0000 <= lo <= hi <= 0x1_0000_0000_0000_0000,
    ensures
        match r {
            Ok(values) => {
                &&& row_values(nested_view(tokens@), signed, lo, hi) == Ok::<Seq<i128>, int>(values@)
                &&& values.len() == tokens.len()
                &&& forall|i: int| 0 <= i < values.len() ==> lo <= (#[trigger] values[i]) <= hi
            },
            Err(i) => row_values(nested_view(tokens@), signed, lo, hi) == Err::<Seq<i128>, int>(i as int),
        },
{
    let ghost all = nested_view(tokens@);
    let n: usize = tokens.len();
    let mut values: Vec<i128> = Vec::new();
    let mut i: usize = 0;
    assert(all.take(0) =~= Seq::empty());
    while i < n
        invariant
            -0x1_0000_0000_0000_0000 <= lo <= hi <= 0x1_0000_0000_0000_0000,
            all == nested_view(tokens@),
            n == tokens.len(),
            i <= n,
            values.len() == i,
            row_values(all.take(i as int), signed, lo, hi) == Ok::<Seq<i128>, int>(values@),
            forall|j: int| 0 <= j < values.len() ==> lo <= (#[trigger] values[j]) <= hi,
        decreases n - i,
    {
        proof {
            assert(all.take(i + 1).drop_last() =~= all.take(i as int));
            assert(all.take(i + 1).last() == tokens[i as int]@);
        }
        match read_number(&tokens[i], signed, lo, hi) {
            Some(v) => {
                values.push(v);
            },
            None => {
                proof {
                    lemma_row_error_stays(all, i + 1, n as int, signed, lo, hi);
                    assert(all.take(n as int) =~= all);
                }
                return Err(i);
            },
        }
        i = i + 1;
    }
    assert(all.take(n as int) =~= all);
    Ok(values)
}

/// A token that writes no number is the error of every longer row.
proof fn lemma_row_error_stays(tokens: Seq<Seq<u8>>, count: int, more: int, signed: bool, lo: i128, hi: i128)
    requires
        0 <= count <= more <= tokens.len(),
        row_values(tokens.take(count), signed, lo, hi) is Err,
    ensures
        row_values(tokens.take(more), signed, lo, hi) == row_values(tokens.take(count), signed, lo, hi),
    decreases more - count,
{
    if count < more {
        lemma_row_error_stays(tokens, count, more - 1, signed, lo, hi);
        assert(tokens.take(more).drop_last() =~= tokens.take(more - 1));
    }
}

/// Reads `count` rows of `width` numbers each from the lines at and after `start`.
fn read_rows(
    lines: &Vec<Vec<u8>>,
    start: usize,
    count: usize,
    width: usize,
    signed: bool,
    lo: i128,
    hi: i128,
) -> (r: Result<(Vec<Vec<i128>>, usize), ParseError>)
    requires
        start <= lines.len(),
        -0x1_0000_0000_0000_0000 <= lo <= hi <= 0x1_0000_0000_0000_0000,
    ensures
        match r {
            Ok((rows, next)) => {
                &&& read_block(nested_view(lines@), start as int, count as nat, width as int, signed, lo, hi) == Ok::<
                    Block,
                    ParseError,
                >(Block { rows: nested_view(rows@), next: next as int })
                &&& next <= lines.len()
                &&& rows.len() == count
                &&& forall|i: int| 0 <= i < rows.len() ==> (#[trigger] rows[i]).len() == width
                &&& forall|i: int, j: int|
                    0 <= i < rows.len() && 0 <= j < rows[i].len() ==> lo <= (#[trigger] rows[i][j]) <= hi
            },
            Err(e) => read_block(nested_view(lines@), start as int, count as nat, width as int, signed, lo, hi)
                == Err::<Block, ParseError>(e),
        },
{
    let ghost all = nested_view(lines@);
    let total: usize = lines.len();
    let mut rows: Vec<Vec<i128>> = Vec::new();
    let mut cursor: usize = start;
    let mut done: usize = 0;
    assert(nested_view(rows@) =~= Seq::empty());
    while done < count
        invariant
            -0x1_0000_0000_0000_0000 <= lo <= hi <= 0x1_0000_0000_0000_0000,
            all == nested_view(lines@),
            total == lines.len(),
            done <= count,
            cursor <= total,
            rows.len() == done,
            read_block(all, start as int, done as nat, width as int, signed, lo, hi) == Ok::<Block, ParseError>(
                Block { rows: nested_view(rows@), next: cursor as int },
            ),
            forall|i: int| 0 <= i < rows.len() ==> (#[trigger] rows[i]).len() == width,
            forall|i: int, j: int| 0 <= i < rows.len() && 0 <= j < rows[i].len() ==> lo <= (#[trigger] rows[i][j]) <= hi,
        decreases count - done,
    {
        let ghost block = Block { rows: nested_view(rows@), next: cursor as int };
        let mut at: usize = cursor;
        while at < total && content_length(&lines[at]) == 0
            invariant
                all == nested_view(lines@),
                total == lines.len(),
                cursor <= at <= total,
                skip_blank(all, at as int) == skip_blank(all, cursor as int),
            decreases total - at,
        {
            assert(all[at as int] == lines[at as int]@);
            at = at + 1;
        }
        proof {
            if at < total {
                assert(all[at as int] == lines[at as int]@);
            }
            assert(skip_blank(all, cursor as int) == at);
        }
        let outcome: Result<Vec<i128>, ParseError> = if at >= total {
            Err(ParseError::UnexpectedEnd { lines: total })
        } else {
            let length: usize = content_length(&lines[at]);
            let tokens = split_bytes(lines[at].as_slice(), 0, length, 32);
            proof {
                lemma_split_nonempty(content(all[at as int]), 32);
            }
            if tokens.len() != width {
                Err(ParseError::TokenCount { line: at, expected: width, found: tokens.len() })
            } else {
                match read_row(&tokens, signed, lo, hi) {
                    Ok(values) => Ok(values),
                    Err(i) => Err(ParseError::BadNumber { line: at, token: i }),
                }
            }
        };
        match outcome {
            Ok(values) => {
                let ghost before = nested_view(rows@);
                rows.push(values);
                assert(nested_view(rows@) =~= before.push(values@));
                cursor = at + 1;
                done = done + 1;
            },
            Err(e) => {
                proof {
                    assert(read_line(all, block, width as int, signed, lo, hi) == Err::<Block, ParseError>(e));
                    lemma_block_error_stays(all, start as int, (done + 1) as nat, count as nat, width as int, signed, lo, hi);
                }
                return Err(e);
            },
        }
    }
    Ok((rows, cursor))
}

/// Reads a problem description from its text.
///
/// The result is the description that the format gives the text, or the
/// first error met when the text is read from its start.
pub fn parse_problem(text: &[u8]) -> (r: Result<ProblemDescription, ParseError>)
    ensures
        match r {
            Ok(d) => parsed(text@) == Ok::<Problem, ParseError>(d@),
            Err(e) => parsed(text@) == Err::<Problem, ParseError>(e),
        },
{
    let lines = split_bytes(text, 0, text.len(), 10);
    assert(text@.subrange(0, text@.len() as int) =~= text@);
    let ghost all = nested_view(lines@);
    let (header, next) = match read_rows(&lines, 0, 1, 3, false, 0, usize::MAX as i128) {
        Ok(block) => block,
        Err(e) => {
            return Err(e);
        },
    };
    let node_count: usize = header[0][0] as usize;
    let k: usize = header[0][1] as usize;
    let a: usize = header[0][2] as usize;
    let quota_lines: usize = if k == 0 {
        0
    } else {
        1
    };
    let (quota_rows, next) = match read_rows(&lines, next, quota_lines, k, false, 0, u32::MAX as i128) {
        Ok(block) => block,
        Err(e) => {
            return Err(e);
        },
    };
    let (energy_rows, next) = match read_rows(&lines, next, k, k, true, i32::MIN as i128, i32::MAX as i128) {
        Ok(block) => block,
        Err(e) => {
            return Err(e);
        },
    };
    let (edge_rows, _) = match read_rows(&lines, next, a, 2, false, 0, usize::MAX as i128) {
        Ok(block) => block,
        Err(e) => {
            return Err(e);
        },
    };
    let mut atom_quota: Vec<u32> = Vec::new();
    let mut i: usize = 0;
    while i < k
        invariant
            i <= k,
            k > 0 ==> quota_rows.len() == 1 && quota_rows[0].len() == k,
            forall|r: int, c: int|
                0 <= r < quota_rows.len() && 0 <= c < quota_rows[r].len() ==> 0 <= (#[trigger] quota_rows[r][c])
                    <= u32::MAX,
            atom_quota.len() == i,
            forall|j: int| 0 <= j < i ==> (#[trigger] atom_quota[j]) == quota_rows[0][j] as u32,
        decreases k - i,
    {
        atom_quota.push(quota_rows[0][i] as u32);
        i = i + 1;
    }
    let mut energy: Vec<Vec<i32>> = Vec::new();
    let mut r: usize = 0;
    while r < k
        invariant
            r <= k,
            energy_rows.len() == k,
            forall|x: int| 0 <= x < energy_rows.len() ==> (#[trigger] energy_rows[x]).len() == k,
            forall|x: int, c: int|
                0 <= x < energy_rows.len() && 0 <= c < energy_rows[x].len() ==> i32::MIN <= (
                #[trigger] energy_rows[x][c]) <= i32::MAX,
            energy.len() == r,
            forall|x: int| 0 <= x < r ==> (#[trigger] energy[x])@ == Seq::new(k as nat, |c: int| energy_rows[x][c] as i32),
        decreases k - r,
    {
        let mut row: Vec<i32> = Vec::new();
        let mut c: usize = 0;
        while c < k
            invariant
                r < k,
                c <= k,
                energy_rows.len() == k,
                energy_rows[r as int].len() == k,
                forall|x: int, y: int|
                    0 <= x < energy_rows.len() && 0 <= y < energy_rows[x].len() ==> i32::MIN <= (
                    #[trigger] energy_rows[x][y]) <= i32::MAX,
                row.len() == c,
                forall|y: int| 0 <= y < c ==> (#[trigger] row[y]) == energy_rows[r as int][y] as i32,
            decreases k - c,
        {
            row.push(energy_rows[r][c] as i32);
            c = c + 1;
        }
        assert(row@ =~= Seq::new(k as nat, |c: int| energy_rows[r as int][c] as i32));
        energy.push(row);
        r = r + 1;
    }
    let mut edges: Vec<Edge> = Vec::new();
    let mut e: usize = 0;
    while e < a
        invariant
            e <= a,
            edge_rows.len() == a,
            forall|x: int| 0 <= x < edge_rows.len() ==> (#[trigger] edge_rows[x]).len() == 2,
            forall|x: int, c: int|
                0 <= x < edge_rows.len() && 0 <= c < edge_rows[x].len() ==> 0 <= (#[trigger] edge_rows[x][c])
                    <= usize::MAX,
            edges.len() == e,
            forall|x: int| 0 <= x < e ==> (#[trigger] edges[x]) == (edge_rows[x][0] as usize, edge_rows[x][1] as usize),
        decreases a - e,
    {
        edges.push((edge_rows[e][0] as usize, edge_rows[e][1] as usize));
        e = e + 1;
    }
    let d = ProblemDescription { node_count, atom_quota, energy, edges };
    proof {
        let hb = read_block(all, 0, 1, 3, false, 0, usize::MAX as i128)->Ok_0;
        assert(hb.rows[0] == header[0]@);
        let qb = read_block(all, hb.next, quota_lines as nat, k as int, false, 0, u32::MAX as i128)->Ok_0;
        let eb = read_block(all, qb.next, k as nat, k as int, true, i32::MIN as i128, i32::MAX as i128)->Ok_0;
        let gb = read_block(all, eb.next, a as nat, 2, false, 0, usize::MAX as i128)->Ok_0;
        let p = described(hb, qb, eb, gb);
        if k > 0 {
            assert(qb.rows[0] == quota_rows[0]@);
        }
        assert(d@.quota =~= p.quota);
        assert forall|x: int| 0 <= x < k implies #[trigger] d@.energy[x] == p.energy[x] by {
            assert(eb.rows[x] == energy_rows[x]@);
            assert(d@.energy[x] =~= p.energy[x]);
        }
        assert(d@.energy =~= p.energy);
        assert forall|x: int| 0 <= x < a implies #[trigger] d@.edges[x] == p.edges[x] by {
            assert(gb.rows[x] == edge_rows[x]@);
        }
        assert(d@.edges =~= p.edges);
        assert(d@ == p);
    }
    Ok(d)
}

/// Reads a problem description from its text and validates it.
pub fn load_problem(text: &[u8]) -> (r: Result<ProblemInstance, LoadError>)
    ensures
        match r {
            Ok(inst) => parsed(text@) == Ok::<Problem, ParseError>(inst@) && inst.wf(),
            Err(LoadError::Syntax(e)) => parsed(text@) == Err::<Problem, ParseError>(e),
            Err(LoadError::Invalid(e)) => parsed(text@) matches Ok(p) && !p.valid() && refusal(
                p.node_count as usize,
                p.quota,
                p.energy,
                p.edges,
                e,
            ),
        },
{
    match parse_problem(text) {
        Err(e) => Err(LoadError::Syntax(e)),
        Ok(d) => {
            let ghost p = d@;
            match ProblemInstance::new(d.node_count, d.atom_quota, d.energy, d.edges) {
                Ok(inst) => {
                    assert(inst@ == p);
                    Ok(inst)
                },
                Err(e) => Err(LoadError::Invalid(e)),
            }
        },
    }
}

} // verus!

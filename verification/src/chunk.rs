//! The bytecode container: an instruction sequence, a constant pool, and a
//! run-length line table.

use crate::value::Value;
use vstd::prelude::*;

verus! {

/// One instruction of the virtual machine. `Constant` carries an index into
/// the owning chunk's constant pool; `Literal` carries a 16-bit immediate
/// that is widened to a runtime value when executed.
#[derive(Debug, Clone, Copy, PartialEq, Eq, Structural)]
pub enum Opcode {
    Return,
    Negate,
    Add,
    Sub,
    Mul,
    Div,
    Constant(u8),
    Literal(u16),
}

/// The line table written out one entry per instruction: each
/// `(repeat, line)` pair contributes `repeat` copies of `line`.
pub open spec fn expand_lines(lines: Seq<(u8, u16)>) -> Seq<u16>
    decreases lines.len(),
{
    if lines.len() == 0 {
        Seq::empty()
    } else {
        expand_lines(lines.drop_last()) + Seq::new(
            lines.last().0 as nat,
            |k: int| lines.last().1,
        )
    }
}

/// The sum of the line table's repeat counts.
pub open spec fn repeat_sum(lines: Seq<(u8, u16)>) -> int
    decreases lines.len(),
{
    if lines.len() == 0 {
        0
    } else {
        repeat_sum(lines.drop_last()) + lines.last().0 as int
    }
}

/// The expanded line table has exactly as many entries as the repeat
/// counts promise.
pub proof fn lemma_expand_len_is_repeat_sum(lines: Seq<(u8, u16)>)
    ensures
        expand_lines(lines).len() == repeat_sum(lines),
    decreases lines.len(),
{
    if lines.len() > 0 {
        lemma_expand_len_is_repeat_sum(lines.drop_last());
    }
}

/// Expansion distributes over concatenation of line tables.
pub proof fn lemma_expand_lines_concat(a: Seq<(u8, u16)>, b: Seq<(u8, u16)>)
    ensures
        expand_lines(a + b) == expand_lines(a) + expand_lines(b),
    decreases b.len(),
{
    if b.len() == 0 {
        assert(a + b =~= a);
        assert(expand_lines(a) + expand_lines(b) =~= expand_lines(a));
    } else {
        lemma_expand_lines_concat(a, b.drop_last());
        assert((a + b).drop_last() =~= a + b.drop_last());
        assert((a + b).last() == b.last());
        assert(expand_lines(a + b) =~= expand_lines(a) + expand_lines(b));
    }
}

/// Resolve an instruction offset to its source line by walking the
/// cumulative repeat counts; an offset beyond the table resolves to nothing.
pub fn get_line(lines: &[(u8, u16)], idx: usize) -> (r: Option<u16>)
    ensures
        r == (if idx < expand_lines(lines@).len() {
            Some(expand_lines(lines@)[idx as int])
        } else {
            None::<u16>
        }),
{
    let n = lines.len();
    let mut count: u128 = 0;
    let mut i: usize = 0;
    proof {
        assert(lines@.take(0) =~= Seq::<(u8, u16)>::empty());
    }
    while i < n
        invariant
            i <= n == lines@.len(),
            count == expand_lines(lines@.take(i as int)).len(),
            count <= 255 * (i as int),
            idx as int >= count,
        decreases n - i,
    {
        let pair = lines[i];
        let rep = pair.0;
        let line = pair.1;
        let up: u128 = count + rep as u128;
        proof {
            assert(lines@.take(i + 1).drop_last() =~= lines@.take(i as int));
            assert(expand_lines(lines@.take(i + 1)) == expand_lines(lines@.take(i as int))
                + Seq::new(rep as nat, |k: int| line));
            assert(lines@ =~= lines@.take(i + 1) + lines@.skip(i + 1));
            lemma_expand_lines_concat(lines@.take(i + 1), lines@.skip(i + 1));
        }
        if (idx as u128) < up {
            proof {
                assert(expand_lines(lines@)[idx as int] == expand_lines(lines@.take(i + 1))[idx as int]);
                assert(expand_lines(lines@.take(i + 1))[idx as int] == line);
            }
            return Some(line);
        }
        count = up;
        i = i + 1;
    }
    proof {
        assert(lines@.take(i as int) =~= lines@);
    }
    None
}

/// A compiled unit: an instruction sequence, its constant pool, and the
/// run-length line table mapping instruction offsets to source lines.
#[derive(Debug)]
pub struct Chunk {
    pub code: Vec<Opcode>,
    pub values: Vec<Value>,
    pub lines: Vec<(u8, u16)>,
}

impl Chunk {
    /// The container's invariant: expanding the line table gives exactly one
    /// source line per appended instruction.
    pub open spec fn wf(self) -> bool {
        expand_lines(self.lines@).len() == self.code@.len()
    }

    /// An empty chunk.
    pub fn new() -> (c: Chunk)
        ensures
            c.code@ =~= Seq::<Opcode>::empty(),
            c.values@ =~= Seq::<Value>::empty(),
            c.lines@ =~= Seq::<(u8, u16)>::empty(),
            c.wf(),
    {
        Chunk {
            code: Vec::with_capacity(8),
            values: Vec::with_capacity(4),
            lines: Vec::with_capacity(8),
        }
    }

    /// Append a constant to the pool and return its index. The pool itself
    /// is unbounded; a producer that encodes the index into a `Constant`
    /// operand must keep it within that operand's 8-bit width.
    pub fn write_value(&mut self, v: Value) -> (idx: usize)
        ensures
            final(self).values@ == old(self).values@.push(v),
            final(self).code@ == old(self).code@,
            final(self).lines@ == old(self).lines@,
            idx == old(self).values@.len(),
    {
        let idx = self.values.len();
        self.values.push(v);
        idx
    }

    /// Append an instruction tagged with its source line. A run of
    /// instructions sharing a line collapses into one table entry; a run
    /// that fills an entry's 8-bit repeat count continues in a fresh entry.
    /// This is the sole way the code/line-table invariant is maintained.
    pub fn write_opcode(&mut self, op: Opcode, line: u16)
        requires
            old(self).wf(),
        ensures
            final(self).wf(),
            final(self).code@ == old(self).code@.push(op),
            final(self).values@ == old(self).values@,
            expand_lines(final(self).lines@) == expand_lines(old(self).lines@).push(line),
    {
        self.code.push(op);
        let n = self.lines.len();
        if n > 0 {
            let pair = self.lines[n - 1];
            let rep = pair.0;
            let last = pair.1;
            if last == line && rep < 255 {
                let ghost pre = self.lines@;
                self.lines[n - 1] = (rep + 1, line);
                proof {
                    assert(self.lines@.drop_last() =~= pre.drop_last());
                    assert(self.lines@.last() == (((rep + 1) as u8), line));
                    assert(expand_lines(self.lines@) =~= expand_lines(pre).push(line));
                }
                return ;
            }
        }
        let ghost pre = self.lines@;
        self.lines.push((1, line));
        proof {
            assert(self.lines@.drop_last() =~= pre);
            assert(expand_lines(self.lines@) =~= expand_lines(pre).push(line));
        }
    }

    /// Resolve an instruction offset of this chunk to its source line.
    pub fn line_for(&self, offset: usize) -> (r: Option<u16>)
        ensures
            r == (if offset < expand_lines(self.lines@).len() {
                Some(expand_lines(self.lines@)[offset as int])
            } else {
                None::<u16>
            }),
    {
        get_line(self.lines.as_slice(), offset)
    }
}

/// The line table of a well-formed chunk accounts for every instruction:
/// its repeat counts sum to the instruction count.
pub proof fn lemma_chunk_line_table_sums(c: Chunk)
    requires
        c.wf(),
    ensures
        repeat_sum(c.lines@) == c.code@.len(),
{
    lemma_expand_len_is_repeat_sum(c.lines@);
}

/// Writing an instruction at source line `line` onto a well-formed chunk
/// resolves the new offset to exactly `line` and leaves every earlier
/// offset's resolved line unchanged, so the table always returns the line
/// passed to `write_opcode` for each instruction.
pub proof fn lemma_write_opcode_tracks_lines(pre: Chunk, post: Chunk, op: Opcode, line: u16)
    requires
        pre.wf(),
        post.code@ == pre.code@.push(op),
        expand_lines(post.lines@) == expand_lines(pre.lines@).push(line),
    ensures
        expand_lines(post.lines@)[pre.code@.len() as int] == line,
        forall|off: int|
            0 <= off < pre.code@.len() ==> expand_lines(post.lines@)[off] == expand_lines(
                pre.lines@,
            )[off],
{
}

} // verus!

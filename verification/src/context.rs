//! The parse-time state: a positional read head over a borrowed byte
//! buffer with save and restore, and a stack of scope frames mapping
//! integer keys to values.

use vstd::prelude::*;

use crate::data::data_view;
use crate::data::Data;
use crate::data::DataView;
use crate::parser::ParseError;

verus! {

/// One scope frame: a mapping from integer keys to values. The
/// mathematical content is the `Map` obtained by reading the entries
/// in order, later entries shadowing earlier ones.
pub struct Scope {
    entries: Vec<(i64, Data)>,
}

/// The mapping named by a list of entries: later entries win.
pub open spec fn entries_map(s: Seq<(i64, Data)>) -> Map<i64, DataView>
    decreases s.len(),
{
    if s.len() == 0 {
        Map::empty()
    } else {
        entries_map(s.drop_last()).insert(s.last().0, data_view(s.last().1))
    }
}

impl View for Scope {
    type V = Map<i64, DataView>;

    closed spec fn view(&self) -> Map<i64, DataView> {
        entries_map(self.entries@)
    }
}

/// Entry lists that agree pairwise on keys and value shapes name the
/// same mapping.
proof fn lemma_entries_map_congruent(s1: Seq<(i64, Data)>, s2: Seq<(i64, Data)>)
    requires
        s1.len() == s2.len(),
        forall|i: int| 0 <= i < s1.len() ==> (#[trigger] s1[i]).0 == s2[i].0
            && data_view(s1[i].1) == data_view(s2[i].1),
    ensures
        entries_map(s1) == entries_map(s2),
    decreases s1.len(),
{
    if s1.len() > 0 {
        lemma_entries_map_congruent(s1.drop_last(), s2.drop_last());
        assert(s1[s1.len() - 1].0 == s2[s2.len() - 1].0);
        assert(data_view(s1[s1.len() - 1].1) == data_view(s2[s2.len() - 1].1));
    }
}

impl Scope {
    /// An empty frame.
    pub fn new() -> (r: Scope)
        ensures
            r@ == Map::<i64, DataView>::empty(),
    {
        Scope { entries: Vec::new() }
    }

    /// Looks the key up in this frame.
    #[verifier::loop_isolation(false)]
    pub fn get(&self, key: i64) -> (r: Option<&Data>)
        ensures
            match r {
                Some(d) => self@.contains_key(key) && d@ == self@[key],
                None => !self@.contains_key(key),
            },
    {
        let n = self.entries.len();
        proof {
            assert(self.entries@.subrange(0, n as int) =~= self.entries@);
        }
        let mut j: usize = n;
        while j > 0
            invariant
                j <= n,
                n == self.entries@.len(),
                entries_map(self.entries@).contains_key(key)
                    == entries_map(self.entries@.subrange(0, j as int)).contains_key(key),
                entries_map(self.entries@).contains_key(key)
                    ==> entries_map(self.entries@)[key]
                        == entries_map(self.entries@.subrange(0, j as int))[key],
            decreases j,
        {
            proof {
                assert(self.entries@.subrange(0, j as int).drop_last()
                    =~= self.entries@.subrange(0, j - 1));
                assert(self.entries@.subrange(0, j as int).last() == self.entries@[j - 1]);
            }
            j = j - 1;
            if self.entries[j].0 == key {
                proof {
                    assert(entries_map(self.entries@.subrange(0, j + 1)).contains_key(key));
                }
                return Some(&self.entries[j].1);
            }
        }
        proof {
            assert(self.entries@.subrange(0, 0) =~= Seq::<(i64, Data)>::empty());
        }
        None
    }

    /// Binds the key to the value in this frame, shadowing any earlier
    /// binding.
    pub fn set(&mut self, key: i64, value: Data)
        ensures
            final(self)@ == old(self)@.insert(key, value@),
    {
        let ghost before = self.entries@;
        self.entries.push((key, value));
        proof {
            assert(self.entries@.drop_last() =~= before);
        }
    }

    /// A copy of this frame naming the same mapping.
    #[verifier::loop_isolation(false)]
    pub fn dup(&self) -> (r: Scope)
        ensures
            r@ == self@,
    {
        let n = self.entries.len();
        let mut out: Vec<(i64, Data)> = Vec::new();
        let mut j: usize = 0;
        while j < n
            invariant
                j <= n,
                n == self.entries@.len(),
                out@.len() == j,
                forall|i: int| 0 <= i < j ==> (#[trigger] out@[i]).0 == self.entries@[i].0
                    && data_view(out@[i].1) == data_view(self.entries@[i].1),
            decreases n - j,
        {
            let key = self.entries[j].0;
            let val = (&self.entries[j].1).dup();
            out.push((key, val));
            j = j + 1;
        }
        proof {
            lemma_entries_map_congruent(out@, self.entries@);
        }
        Scope { entries: out }
    }
}

/// The abstract parse state: the cursor position and the stack of
/// scope frames, the last one current.
#[verifier::ext_equal]
pub struct CtxView {
    pub pos: int,
    pub frames: Seq<Map<i64, DataView>>,
}

/// The state each parse owns: a read position over a borrowed byte
/// buffer and a non-empty stack of scope frames.
pub struct Context<'a> {
    scope_stack: Vec<Scope>,
    pos: usize,
    bytes: &'a [u8],
}

impl<'a> View for Context<'a> {
    type V = CtxView;

    closed spec fn view(&self) -> CtxView {
        CtxView {
            pos: self.pos as int,
            frames: Seq::new(self.scope_stack@.len(), |i: int| self.scope_stack@[i]@),
        }
    }
}

impl<'a> Context<'a> {
    /// The bytes this context reads.
    pub closed spec fn sbytes(&self) -> Seq<u8> {
        self.bytes@
    }

    /// The position never passes the end, and at least one frame is
    /// always on the stack.
    pub open spec fn wf(&self) -> bool {
        0 <= self@.pos <= self.sbytes().len() && self@.frames.len() >= 1
    }

    /// A fresh context over the buffer: position zero, one empty frame.
    pub fn new(bytes: &'a [u8]) -> (r: Context<'a>)
        ensures
            r.wf(),
            r.sbytes() == bytes@,
            r@.pos == 0,
            r@.frames =~= seq![Map::<i64, DataView>::empty()],
    {
        let mut stack: Vec<Scope> = Vec::new();
        stack.push(Scope::new());
        Context { scope_stack: stack, pos: 0, bytes }
    }

    /// The current (topmost) frame.
    pub fn scope(&self) -> (r: &Scope)
        requires
            self.wf(),
        ensures
            r@ == self@.frames.last(),
    {
        let n = self.scope_stack.len();
        &self.scope_stack[n - 1]
    }

    /// The current frame, for writing.
    pub fn scope_mut(&mut self) -> (r: &mut Scope)
        requires
            old(self).wf(),
        ensures
            r@ == old(self)@.frames.last(),
            final(self).wf(),
            final(self).sbytes() == old(self).sbytes(),
            final(self)@.pos == old(self)@.pos,
            final(self)@.frames =~= old(self)@.frames.update(
                old(self)@.frames.len() - 1,
                final(r)@,
            ),
    {
        let n = self.scope_stack.len();
        &mut self.scope_stack[n - 1]
    }

    /// Binds the key in the current frame.
    pub fn set_var(&mut self, key: i64, value: Data)
        requires
            old(self).wf(),
        ensures
            final(self).wf(),
            final(self).sbytes() == old(self).sbytes(),
            final(self)@.pos == old(self)@.pos,
            final(self)@.frames =~= old(self)@.frames.update(
                old(self)@.frames.len() - 1,
                old(self)@.frames.last().insert(key, value@),
            ),
    {
        let ghost v = value@;
        let s = self.scope_mut();
        s.set(key, value);
    }

    /// The `n` bytes at the current position, without advancing;
    /// `EndOfInput` when fewer than `n` remain.
    pub fn peek(&self, n: usize) -> (r: Result<&'a [u8], ParseError>)
        requires
            self.wf(),
        ensures
            match r {
                Ok(s) => self@.pos + n <= self.sbytes().len()
                    && s@ == self.sbytes().subrange(self@.pos, self@.pos + n),
                Err(e) => e == ParseError::EndOfInput && self@.pos + n > self.sbytes().len(),
            },
    {
        if n <= self.bytes.len() - self.pos {
            Ok(vstd::slice::slice_subrange(self.bytes, self.pos, self.pos + n))
        } else {
            Err(ParseError::EndOfInput)
        }
    }

    /// As `peek`, and advances the position by `n` on success; on
    /// failure the position is unchanged.
    pub fn read(&mut self, n: usize) -> (r: Result<&'a [u8], ParseError>)
        requires
            old(self).wf(),
        ensures
            final(self).wf(),
            final(self).sbytes() == old(self).sbytes(),
            final(self)@.frames == old(self)@.frames,
            match r {
                Ok(s) => old(self)@.pos + n <= old(self).sbytes().len()
                    && s@ == old(self).sbytes().subrange(old(self)@.pos, old(self)@.pos + n)
                    && final(self)@.pos == old(self)@.pos + n,
                Err(e) => e == ParseError::EndOfInput
                    && old(self)@.pos + n > old(self).sbytes().len()
                    && final(self)@.pos == old(self)@.pos,
            },
    {
        if n <= self.bytes.len() - self.pos {
            let s = vstd::slice::slice_subrange(self.bytes, self.pos, self.pos + n);
            self.pos = self.pos + n;
            Ok(s)
        } else {
            Err(ParseError::EndOfInput)
        }
    }

    /// Pushes a copy of the current frame; later writes to the copy do
    /// not touch the parent, and popping loses them.
    pub fn push_stack(&mut self)
        requires
            old(self).wf(),
        ensures
            final(self).wf(),
            final(self).sbytes() == old(self).sbytes(),
            final(self)@.pos == old(self)@.pos,
            final(self)@.frames =~= old(self)@.frames.push(old(self)@.frames.last()),
    {
        let n = self.scope_stack.len();
        let copy = (&self.scope_stack[n - 1]).dup();
        self.scope_stack.push(copy);
    }

    /// Discards the current frame; the frame below becomes current.
    pub fn pop_stack(&mut self)
        requires
            old(self).wf(),
            old(self)@.frames.len() >= 2,
        ensures
            final(self).wf(),
            final(self).sbytes() == old(self).sbytes(),
            final(self)@.pos == old(self)@.pos,
            final(self)@.frames =~= old(self)@.frames.drop_last(),
    {
        let _ = self.scope_stack.pop();
    }

    /// The current position, for a later `restore`.
    pub fn save(&self) -> (r: usize)
        ensures
            r == self@.pos,
    {
        self.pos
    }

    /// Sets the position back to one produced by an earlier `save`.
    pub fn restore(&mut self, pos: usize)
        requires
            old(self).wf(),
            pos <= old(self).sbytes().len(),
        ensures
            final(self).wf(),
            final(self).sbytes() == old(self).sbytes(),
            final(self)@.pos == pos,
            final(self)@.frames == old(self)@.frames,
    {
        self.pos = pos;
    }
}

} // verus!

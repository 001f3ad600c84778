//! Log entries and their binary layout.
//!
//! An entry is laid out as its term and index (`u64`, little endian)
//! followed by its command: a `u32` variant tag (0 insert, 1 delete,
//! 2 batch, 3 no-op) and the variant's fields. Sequences carry a `u64`
//! length before their elements, and an optional value carries a one-byte
//! tag (0 none, 1 some) before the value.

use crate::le_bytes::{
    get_le_u32, get_le_u64, le_u32, le_u64, lemma_le_u32_of_read, lemma_le_u64_of_read, lemma_read_le_u32,
    lemma_read_le_u64, push_le_u32, push_le_u64, read_le_u32, read_le_u64,
};
use crate::error::VajraError;
use vstd::prelude::*;

verus! {

/// Commands that can be stored in the log.
#[derive(Debug, PartialEq, Eq)]
pub enum Command {
    /// Insert a vector into the index. `vector` holds the IEEE-754 bit
    /// patterns of the embedding's `f32` components.
    Insert { id: u64, vector: Vec<u32>, metadata: Option<Vec<u8>> },
    /// Delete a vector from the index.
    Delete { id: u64 },
    /// Batch of commands applied together.
    Batch(Vec<Command>),
    /// No-op for leader election confirmation.
    Noop,
}

/// The mathematical value of a [`Command`].
pub enum CommandModel {
    Insert { id: u64, vector: Seq<u32>, metadata: Option<Seq<u8>> },
    Delete { id: u64 },
    Batch(Seq<CommandModel>),
    Noop,
}

impl Command {
    /// The value this command denotes.
    pub open spec fn model(&self) -> CommandModel
        decreases self,
    {
        match self {
            Command::Insert { id, vector, metadata } => CommandModel::Insert {
                id: *id,
                vector: vector@,
                metadata: match metadata {
                    Some(m) => Some(m@),
                    None => None,
                },
            },
            Command::Delete { id } => CommandModel::Delete { id: *id },
            Command::Batch(cs) => CommandModel::Batch(commands_model(cs@)),
            Command::Noop => CommandModel::Noop,
        }
    }
}

/// The values of a sequence of commands.
pub open spec fn commands_model(cs: Seq<Command>) -> Seq<CommandModel>
    decreases cs,
{
    if cs.len() == 0 {
        Seq::empty()
    } else {
        commands_model(cs.drop_last()).push(cs.last().model())
    }
}

/// `commands_model` maps each command to its value.
pub proof fn lemma_commands_model(cs: Seq<Command>)
    ensures
        commands_model(cs).len() == cs.len(),
        forall|i: int| 0 <= i < cs.len() ==> #[trigger] commands_model(cs)[i] == cs[i].model(),
    decreases cs.len(),
{
    if cs.len() > 0 {
        lemma_commands_model(cs.drop_last());
    }
}

/// A log entry: a command tagged with the Raft term and log index.
#[derive(Debug, PartialEq, Eq)]
pub struct LogEntry {
    /// The Raft term when this entry was created.
    pub term: u64,
    /// The log index of this entry.
    pub index: u64,
    /// The command payload.
    pub command: Command,
}

/// The mathematical value of a [`LogEntry`].
pub struct LogEntryModel {
    pub term: u64,
    pub index: u64,
    pub command: CommandModel,
}

impl LogEntry {
    /// The value this entry denotes.
    pub open spec fn model(&self) -> LogEntryModel {
        LogEntryModel { term: self.term, index: self.index, command: self.command.model() }
    }
}

// ---------------------------------------------------------------------------
// Layout
// ---------------------------------------------------------------------------

/// The variant tag of a command.
pub open spec fn command_tag(m: CommandModel) -> u32 {
    match m {
        CommandModel::Insert { .. } => 0,
        CommandModel::Delete { .. } => 1,
        CommandModel::Batch(_) => 2,
        CommandModel::Noop => 3,
    }
}

/// Layout of a sequence of `u32` values (without its length).
pub open spec fn enc_u32s(v: Seq<u32>) -> Seq<u8>
    decreases v.len(),
{
    if v.len() == 0 {
        Seq::empty()
    } else {
        enc_u32s(v.drop_last()) + le_u32(v.last())
    }
}

/// Layout of an optional byte string.
pub open spec fn enc_metadata(m: Option<Seq<u8>>) -> Seq<u8> {
    match m {
        None => seq![0u8],
        Some(b) => seq![1u8] + le_u64(b.len() as u64) + b,
    }
}

/// Layout of a command.
pub open spec fn enc_command(m: CommandModel) -> Seq<u8>
    decreases m,
{
    match m {
        CommandModel::Insert { id, vector, metadata } => le_u32(0) + le_u64(id) + le_u64(
            vector.len() as u64,
        ) + enc_u32s(vector) + enc_metadata(metadata),
        CommandModel::Delete { id } => le_u32(1) + le_u64(id),
        CommandModel::Batch(cs) => le_u32(2) + le_u64(cs.len() as u64) + enc_commands(cs),
        CommandModel::Noop => le_u32(3),
    }
}

/// Layout of a sequence of commands (without its length).
pub open spec fn enc_commands(cs: Seq<CommandModel>) -> Seq<u8>
    decreases cs,
{
    if cs.len() == 0 {
        Seq::empty()
    } else {
        enc_commands(cs.drop_last()) + enc_command(cs.last())
    }
}

/// Layout of a log entry.
pub open spec fn enc_entry(e: LogEntryModel) -> Seq<u8> {
    le_u64(e.term) + le_u64(e.index) + enc_command(e.command)
}

/// Every length inside the command fits the `u64` length fields.
pub open spec fn wf_command(m: CommandModel) -> bool
    decreases m,
{
    match m {
        CommandModel::Insert { vector, metadata, .. } => vector.len() <= u64::MAX && match metadata {
            Some(b) => b.len() <= u64::MAX,
            None => true,
        },
        CommandModel::Batch(cs) => cs.len() <= u64::MAX && wf_commands(cs),
        _ => true,
    }
}

/// Every command of the sequence is well formed.
pub open spec fn wf_commands(cs: Seq<CommandModel>) -> bool
    decreases cs,
{
    if cs.len() == 0 {
        true
    } else {
        wf_commands(cs.drop_last()) && wf_command(cs.last())
    }
}

/// `b[p..]` begins with `e`.
pub open spec fn parses_at(b: Seq<u8>, p: int, e: Seq<u8>) -> bool {
    0 <= p && p + e.len() <= b.len() && b.subrange(p, p + e.len()) == e
}

// ---------------------------------------------------------------------------
// Lemmas on the layout
// ---------------------------------------------------------------------------

proof fn lemma_parses_concat(b: Seq<u8>, p: int, x: Seq<u8>, y: Seq<u8>)
    ensures
        parses_at(b, p, x + y) <==> (parses_at(b, p, x) && parses_at(b, p + x.len(), y)),
{
    if parses_at(b, p, x + y) {
        assert(b.subrange(p, p + x.len()) =~= (x + y).subrange(0, x.len() as int));
        assert((x + y).subrange(0, x.len() as int) =~= x);
        assert(b.subrange(p + x.len(), p + x.len() + y.len()) =~= (x + y).subrange(
            x.len() as int,
            (x.len() + y.len()) as int,
        ));
        assert((x + y).subrange(x.len() as int, (x.len() + y.len()) as int) =~= y);
    }
    if parses_at(b, p, x) && parses_at(b, p + x.len(), y) {
        assert(b.subrange(p, p + (x + y).len()) =~= b.subrange(p, p + x.len()) + b.subrange(
            p + x.len(),
            p + x.len() + y.len(),
        ));
        assert(b.subrange(p, p + (x + y).len()) =~= x + y);
    }
}

proof fn lemma_enc_u32s_len(v: Seq<u32>)
    ensures
        enc_u32s(v).len() == 4 * v.len(),
    decreases v.len(),
{
    if v.len() > 0 {
        lemma_enc_u32s_len(v.drop_last());
    }
}

proof fn lemma_enc_u32s_injective(v1: Seq<u32>, v2: Seq<u32>)
    requires
        v1.len() == v2.len(),
        enc_u32s(v1) == enc_u32s(v2),
    ensures
        v1 == v2,
    decreases v1.len(),
{
    if v1.len() > 0 {
        let e1 = enc_u32s(v1);
        lemma_enc_u32s_len(v1.drop_last());
        lemma_enc_u32s_len(v2.drop_last());
        let k = 4 * (v1.len() - 1);
        lemma_parses_concat(e1, 0, enc_u32s(v1.drop_last()), le_u32(v1.last()));
        lemma_parses_concat(e1, 0, enc_u32s(v2.drop_last()), le_u32(v2.last()));
        assert(e1.subrange(0, e1.len() as int) =~= e1);
        lemma_enc_u32s_injective(v1.drop_last(), v2.drop_last());
        lemma_read_le_u32(e1, k, v1.last());
        lemma_read_le_u32(e1, k, v2.last());
        assert(v1 =~= v1.drop_last().push(v1.last()));
        assert(v2 =~= v2.drop_last().push(v2.last()));
    }
}

proof fn lemma_enc_command_len(m: CommandModel)
    ensures
        enc_command(m).len() >= 4,
{
}

/// A command's layout begins with its tag.
proof fn lemma_tag_prefix(b: Seq<u8>, p: int, m: CommandModel)
    requires
        parses_at(b, p, enc_command(m)),
    ensures
        p + 4 <= b.len(),
        read_le_u32(b, p) == command_tag(m),
{
    let t = le_u32(command_tag(m));
    let rest = enc_command(m).subrange(4, enc_command(m).len() as int);
    assert(enc_command(m) =~= t + rest);
    lemma_parses_concat(b, p, t, rest);
    lemma_read_le_u32(b, p, command_tag(m));
}

/// Splitting the layout of a command sequence at any point.
proof fn lemma_enc_commands_split(cs: Seq<CommandModel>, k: int)
    requires
        0 <= k <= cs.len(),
    ensures
        enc_commands(cs) == enc_commands(cs.subrange(0, k)) + enc_commands(
            cs.subrange(k, cs.len() as int),
        ),
    decreases cs.len(),
{
    if k == cs.len() {
        assert(cs.subrange(0, k) =~= cs);
        assert(cs.subrange(k, cs.len() as int) =~= Seq::<CommandModel>::empty());
        assert(enc_commands(cs) + Seq::<u8>::empty() =~= enc_commands(cs));
    } else {
        lemma_enc_commands_split(cs.drop_last(), k);
        assert(cs.drop_last().subrange(0, k) =~= cs.subrange(0, k));
        let tail = cs.subrange(k, cs.len() as int);
        assert(tail.drop_last() =~= cs.drop_last().subrange(k, cs.len() - 1));
        assert(tail.last() == cs.last());
    }
}

/// A command sequence whose layout starts at `p` has its first command there.
proof fn lemma_enc_commands_front(cs: Seq<CommandModel>)
    requires
        cs.len() > 0,
    ensures
        enc_commands(cs) == enc_command(cs[0]) + enc_commands(cs.drop_first()),
{
    lemma_enc_commands_split(cs, 1);
    let one = cs.subrange(0, 1);
    assert(one.drop_last() =~= Seq::<CommandModel>::empty());
    assert(enc_commands(one.drop_last()) =~= Seq::<u8>::empty());
    assert(one.last() == cs[0]);
    assert(enc_commands(one) =~= enc_command(cs[0]));
    assert(cs.subrange(1, cs.len() as int) =~= cs.drop_first());
}

proof fn lemma_wf_commands_elems(cs: Seq<CommandModel>)
    ensures
        wf_commands(cs) <==> forall|i: int| 0 <= i < cs.len() ==> #[trigger] wf_command(cs[i]),
    decreases cs.len(),
{
    if cs.len() > 0 {
        lemma_wf_commands_elems(cs.drop_last());
        assert(forall|i: int| 0 <= i < cs.len() - 1 ==> cs.drop_last()[i] == cs[i]);
        if wf_commands(cs) {
            assert forall|i: int| 0 <= i < cs.len() implies #[trigger] wf_command(cs[i]) by {
                if i < cs.len() - 1 {
                    assert(wf_command(cs.drop_last()[i]));
                }
            }
        }
        if forall|i: int| 0 <= i < cs.len() ==> #[trigger] wf_command(cs[i]) {
            assert forall|i: int| 0 <= i < cs.drop_last().len() implies #[trigger] wf_command(
                cs.drop_last()[i],
            ) by {
                assert(wf_command(cs[i]));
            }
            assert(wf_command(cs[cs.len() - 1]));
            assert(wf_commands(cs.drop_last()));
            assert(wf_commands(cs));
        }
    }
}

/// Two well-formed commands whose layouts both start at `p` are equal.
pub proof fn lemma_command_prefix_free(b: Seq<u8>, p: int, m1: CommandModel, m2: CommandModel)
    requires
        wf_command(m1),
        wf_command(m2),
        parses_at(b, p, enc_command(m1)),
        parses_at(b, p, enc_command(m2)),
    ensures
        m1 == m2,
    decreases m1,
{
    lemma_tag_prefix(b, p, m1);
    lemma_tag_prefix(b, p, m2);
    match m1 {
        CommandModel::Insert { id: id1, vector: v1, metadata: md1 } => {
            let id2 = m2->Insert_id;
            let v2 = m2->Insert_vector;
            let md2 = m2->Insert_metadata;
            let h1 = le_u32(0) + le_u64(id1) + le_u64(v1.len() as u64);
            let h2 = le_u32(0) + le_u64(id2) + le_u64(v2.len() as u64);
            lemma_parses_concat(b, p, h1 + enc_u32s(v1), enc_metadata(md1));
            lemma_parses_concat(b, p, h2 + enc_u32s(v2), enc_metadata(md2));
            lemma_parses_concat(b, p, h1, enc_u32s(v1));
            lemma_parses_concat(b, p, h2, enc_u32s(v2));
            lemma_parses_concat(b, p, le_u32(0) + le_u64(id1), le_u64(v1.len() as u64));
            lemma_parses_concat(b, p, le_u32(0) + le_u64(id2), le_u64(v2.len() as u64));
            lemma_parses_concat(b, p, le_u32(0), le_u64(id1));
            lemma_parses_concat(b, p, le_u32(0), le_u64(id2));
            lemma_read_le_u64(b, p + 4, id1);
            lemma_read_le_u64(b, p + 4, id2);
            lemma_read_le_u64(b, p + 12, v1.len() as u64);
            lemma_read_le_u64(b, p + 12, v2.len() as u64);
            assert(v1.len() == v2.len());
            lemma_enc_u32s_len(v1);
            lemma_enc_u32s_len(v2);
            lemma_enc_u32s_injective(v1, v2);
            let q = p + 20 + 4 * v1.len();
            match md1 {
                None => {
                    assert(b[q] == enc_metadata(md1)[0]);
                    assert(b[q] == enc_metadata(md2)[0]);
                    if let Some(x2) = md2 {
                        assert((seq![1u8] + le_u64(x2.len() as u64) + x2)[0] == 1u8);
                    }
                },
                Some(x1) => {
                    assert(b[q] == enc_metadata(md1)[0]);
                    assert(b[q] == enc_metadata(md2)[0]);
                    assert((seq![1u8] + le_u64(x1.len() as u64) + x1)[0] == 1u8);
                    let x2 = md2->0;
                    assert((seq![1u8] + le_u64(x2.len() as u64) + x2)[0] == 1u8);
                    lemma_parses_concat(b, q, seq![1u8] + le_u64(x1.len() as u64), x1);
                    lemma_parses_concat(b, q, seq![1u8] + le_u64(x2.len() as u64), x2);
                    lemma_parses_concat(b, q, seq![1u8], le_u64(x1.len() as u64));
                    lemma_parses_concat(b, q, seq![1u8], le_u64(x2.len() as u64));
                    lemma_read_le_u64(b, q + 1, x1.len() as u64);
                    lemma_read_le_u64(b, q + 1, x2.len() as u64);
                    assert(x1 =~= x2);
                },
            }
        },
        CommandModel::Delete { id: id1 } => {
            let id2 = m2->Delete_id;
            lemma_parses_concat(b, p, le_u32(1), le_u64(id1));
            lemma_parses_concat(b, p, le_u32(1), le_u64(id2));
            lemma_read_le_u64(b, p + 4, id1);
            lemma_read_le_u64(b, p + 4, id2);
        },
        CommandModel::Batch(cs1) => {
            let cs2 = m2->Batch_0;
            let h1 = le_u32(2) + le_u64(cs1.len() as u64);
            let h2 = le_u32(2) + le_u64(cs2.len() as u64);
            lemma_parses_concat(b, p, h1, enc_commands(cs1));
            lemma_parses_concat(b, p, h2, enc_commands(cs2));
            lemma_parses_concat(b, p, le_u32(2), le_u64(cs1.len() as u64));
            lemma_parses_concat(b, p, le_u32(2), le_u64(cs2.len() as u64));
            lemma_read_le_u64(b, p + 4, cs1.len() as u64);
            lemma_read_le_u64(b, p + 4, cs2.len() as u64);
            lemma_commands_prefix_free(b, p + 12, cs1, cs2);
        },
        CommandModel::Noop => {
        },
    }
}

/// Two well-formed command sequences of one length whose layouts both start
/// at `p` are equal.
pub proof fn lemma_commands_prefix_free(
    b: Seq<u8>,
    p: int,
    cs1: Seq<CommandModel>,
    cs2: Seq<CommandModel>,
)
    requires
        cs1.len() == cs2.len(),
        wf_commands(cs1),
        wf_commands(cs2),
        parses_at(b, p, enc_commands(cs1)),
        parses_at(b, p, enc_commands(cs2)),
    ensures
        cs1 == cs2,
    decreases cs1,
{
    if cs1.len() > 0 {
        lemma_enc_commands_front(cs1);
        lemma_enc_commands_front(cs2);
        lemma_wf_commands_elems(cs1);
        lemma_wf_commands_elems(cs2);
        lemma_wf_commands_elems(cs1.drop_first());
        lemma_wf_commands_elems(cs2.drop_first());
        assert(wf_command(cs1[0]));
        assert(wf_command(cs2[0]));
        lemma_parses_concat(b, p, enc_command(cs1[0]), enc_commands(cs1.drop_first()));
        lemma_parses_concat(b, p, enc_command(cs2[0]), enc_commands(cs2.drop_first()));
        lemma_command_prefix_free(b, p, cs1[0], cs2[0]);
        assert(forall|i: int| 0 <= i < cs1.drop_first().len() ==> cs1.drop_first()[i] == cs1[i + 1]);
        assert(forall|i: int| 0 <= i < cs2.drop_first().len() ==> cs2.drop_first()[i] == cs2[i + 1]);
        lemma_commands_prefix_free(
            b,
            p + enc_command(cs1[0]).len(),
            cs1.drop_first(),
            cs2.drop_first(),
        );
        assert(cs1 =~= seq![cs1[0]] + cs1.drop_first());
        assert(cs2 =~= seq![cs2[0]] + cs2.drop_first());
    } else {
        assert(cs1 =~= cs2);
    }
}

} // verus!

verus! {

// ---------------------------------------------------------------------------
// Facts on the layout of each variant
// ---------------------------------------------------------------------------

/// The well-formed model of every command.
pub proof fn lemma_model_wf(c: &Command)
    ensures
        wf_command(c.model()),
    decreases c,
{
    match c {
        Command::Insert { vector, metadata, .. } => {
            assert(vector@.len() == vector.len());
            match metadata {
                Some(m) => {
                    assert(m@.len() == m.len());
                },
                None => {},
            }
        },
        Command::Batch(cs) => {
            assert(cs@.len() == cs.len());
            lemma_commands_model(cs@);
            assert forall|i: int| 0 <= i < cs@.len() implies #[trigger] wf_command(
                commands_model(cs@)[i],
            ) by {
                lemma_model_wf(&cs@[i]);
            }
            lemma_wf_commands_elems(commands_model(cs@));
        },
        _ => {},
    }
}

proof fn lemma_insert_layout(b: Seq<u8>, p: int, m: CommandModel)
    requires
        m is Insert,
        wf_command(m),
        parses_at(b, p, enc_command(m)),
    ensures
        p + 20 <= b.len(),
        read_le_u64(b, p + 4) == m->Insert_id,
        read_le_u64(b, p + 12) == m->Insert_vector.len(),
        p + 20 + 4 * m->Insert_vector.len() < b.len(),
        parses_at(b, p + 20, enc_u32s(m->Insert_vector)),
        parses_at(b, p + 20 + 4 * m->Insert_vector.len(), enc_metadata(m->Insert_metadata)),
        b[p + 20 + 4 * m->Insert_vector.len()] == (if m->Insert_metadata is Some {
            1u8
        } else {
            0u8
        }),
        m->Insert_metadata matches Some(x) ==> {
            &&& p + 20 + 4 * m->Insert_vector.len() + 9 + x.len() <= b.len()
            &&& read_le_u64(b, p + 20 + 4 * m->Insert_vector.len() + 1) == x.len()
        },
{
    let id = m->Insert_id;
    let v = m->Insert_vector;
    let md = m->Insert_metadata;
    let h = le_u32(0) + le_u64(id) + le_u64(v.len() as u64);
    lemma_parses_concat(b, p, h + enc_u32s(v), enc_metadata(md));
    lemma_parses_concat(b, p, h, enc_u32s(v));
    lemma_parses_concat(b, p, le_u32(0) + le_u64(id), le_u64(v.len() as u64));
    lemma_parses_concat(b, p, le_u32(0), le_u64(id));
    lemma_read_le_u64(b, p + 4, id);
    lemma_read_le_u64(b, p + 12, v.len() as u64);
    lemma_enc_u32s_len(v);
    let q = p + 20 + 4 * v.len();
    assert(b[q] == b.subrange(q, q + enc_metadata(md).len())[0]);
    match md {
        Some(x) => {
            assert((seq![1u8] + le_u64(x.len() as u64) + x)[0] == 1u8);
            lemma_parses_concat(b, q, seq![1u8] + le_u64(x.len() as u64), x);
            lemma_parses_concat(b, q, seq![1u8], le_u64(x.len() as u64));
            lemma_read_le_u64(b, q + 1, x.len() as u64);
        },
        None => {},
    }
}

proof fn lemma_delete_layout(b: Seq<u8>, p: int, m: CommandModel)
    requires
        m is Delete,
        parses_at(b, p, enc_command(m)),
    ensures
        p + 12 <= b.len(),
        read_le_u64(b, p + 4) == m->Delete_id,
{
    lemma_parses_concat(b, p, le_u32(1), le_u64(m->Delete_id));
    lemma_read_le_u64(b, p + 4, m->Delete_id);
}

proof fn lemma_batch_layout(b: Seq<u8>, p: int, m: CommandModel)
    requires
        m is Batch,
        wf_command(m),
        parses_at(b, p, enc_command(m)),
    ensures
        p + 12 <= b.len(),
        read_le_u64(b, p + 4) == m->Batch_0.len(),
        parses_at(b, p + 12, enc_commands(m->Batch_0)),
{
    let cs = m->Batch_0;
    lemma_parses_concat(b, p, le_u32(2) + le_u64(cs.len() as u64), enc_commands(cs));
    lemma_parses_concat(b, p, le_u32(2), le_u64(cs.len() as u64));
    lemma_read_le_u64(b, p + 4, cs.len() as u64);
}

/// Reading `n` little-endian `u32` values at `start`.
fn decode_u32s(b: &[u8], start: usize, n: usize) -> (r: Vec<u32>)
    requires
        start + 4 * n <= b@.len(),
    ensures
        r@.len() == n,
        parses_at(b@, start as int, enc_u32s(r@)),
{
    let blen = b.len();
    let mut out: Vec<u32> = Vec::new();
    let mut i: usize = 0;
    while i < n
        invariant
            i <= n,
            blen == b@.len(),
            start + 4 * n <= blen,
            out@.len() == i,
            enc_u32s(out@) == b@.subrange(start as int, start + 4 * i),
        decreases n - i,
    {
        let x = get_le_u32(b, start + 4 * i);
        proof {
            lemma_le_u32_of_read(b@, start + 4 * i);
            assert(out@.push(x).drop_last() =~= out@);
            assert(b@.subrange(start as int, start + 4 * (i + 1)) =~= b@.subrange(
                start as int,
                start + 4 * i,
            ) + b@.subrange(start + 4 * i, start + 4 * i + 4));
        }
        out.push(x);
        i = i + 1;
    }
    proof {
        lemma_enc_u32s_len(out@);
    }
    out
}

/// Copying `n` bytes at `start`.
fn copy_bytes(b: &[u8], start: usize, n: usize) -> (r: Vec<u8>)
    requires
        start + n <= b@.len(),
    ensures
        r@ == b@.subrange(start as int, start + n),
{
    let blen = b.len();
    let mut out: Vec<u8> = Vec::new();
    let mut i: usize = 0;
    while i < n
        invariant
            i <= n,
            blen == b@.len(),
            start + n <= blen,
            out@ == b@.subrange(start as int, start + i),
        decreases n - i,
    {
        out.push(b[start + i]);
        i = i + 1;
        assert(out@ =~= b@.subrange(start as int, start + i));
    }
    out
}


/// The facts every decoder of one variant leaves for its caller.
pub open spec fn decoded_command(b: Seq<u8>, pos: int, r: Option<(Command, usize)>) -> bool {
    &&& r matches Some((c, end)) ==> {
        &&& wf_command(c.model())
        &&& end == pos + enc_command(c.model()).len()
        &&& parses_at(b, pos, enc_command(c.model()))
    }
    &&& r is None ==> forall|m: CommandModel|
        wf_command(m) ==> !parses_at(b, pos, #[trigger] enc_command(m))
}

fn decode_insert(b: &[u8], pos: usize) -> (r: Option<(Command, usize)>)
    requires
        pos + 4 <= b@.len(),
        read_le_u32(b@, pos as int) == 0,
    ensures
        decoded_command(b@, pos as int, r),
{
    let len = b.len();
    proof {
        lemma_le_u32_of_read(b@, pos as int);
    }
    if len - pos < 20 {
        proof {
            assert forall|m: CommandModel| wf_command(m) implies !parses_at(
                b@,
                pos as int,
                #[trigger] enc_command(m),
            ) by {
                if parses_at(b@, pos as int, enc_command(m)) {
                    lemma_tag_prefix(b@, pos as int, m);
                    lemma_insert_layout(b@, pos as int, m);
                }
            }
        }
        return None;
    }
    let id = get_le_u64(b, pos + 4);
    let n = get_le_u64(b, pos + 12);
    proof {
        lemma_le_u64_of_read(b@, pos + 4);
        lemma_le_u64_of_read(b@, pos + 12);
    }
    let start = pos + 20;
    if n >= ((len - start) / 4) as u64 + 1 {
        proof {
            assert forall|m: CommandModel| wf_command(m) implies !parses_at(
                b@,
                pos as int,
                #[trigger] enc_command(m),
            ) by {
                if parses_at(b@, pos as int, enc_command(m)) {
                    lemma_tag_prefix(b@, pos as int, m);
                    lemma_insert_layout(b@, pos as int, m);
                }
            }
        }
        return None;
    }
    let n = n as usize;
    let vector = decode_u32s(b, start, n);
    let q = start + 4 * n;
    if q >= len {
        proof {
            assert forall|m: CommandModel| wf_command(m) implies !parses_at(
                b@,
                pos as int,
                #[trigger] enc_command(m),
            ) by {
                if parses_at(b@, pos as int, enc_command(m)) {
                    lemma_tag_prefix(b@, pos as int, m);
                    lemma_insert_layout(b@, pos as int, m);
                }
            }
        }
        return None;
    }
    let mtag = b[q];
    let metadata: Option<Vec<u8>>;
    let end: usize;
    if mtag == 0 {
        metadata = None;
        end = q + 1;
        proof {
            assert(b@.subrange(q as int, q + 1) =~= enc_metadata(None));
        }
    } else if mtag == 1 {
        if len - q < 9 {
            proof {
                assert forall|m: CommandModel| wf_command(m) implies !parses_at(
                    b@,
                    pos as int,
                    #[trigger] enc_command(m),
                ) by {
                    if parses_at(b@, pos as int, enc_command(m)) {
                        lemma_tag_prefix(b@, pos as int, m);
                        lemma_insert_layout(b@, pos as int, m);
                    }
                }
            }
            return None;
        }
        let ml = get_le_u64(b, q + 1);
        proof {
            lemma_le_u64_of_read(b@, q + 1);
        }
        if ml > (len - q - 9) as u64 {
            proof {
                assert forall|m: CommandModel| wf_command(m) implies !parses_at(
                    b@,
                    pos as int,
                    #[trigger] enc_command(m),
                ) by {
                    if parses_at(b@, pos as int, enc_command(m)) {
                        lemma_tag_prefix(b@, pos as int, m);
                        lemma_insert_layout(b@, pos as int, m);
                    }
                }
            }
            return None;
        }
        let ml = ml as usize;
        let bytes = copy_bytes(b, q + 9, ml);
        end = q + 9 + ml;
        proof {
            assert(b@.subrange(q as int, end as int) =~= seq![1u8] + b@.subrange(q + 1, q + 9)
                + bytes@);
        }
        metadata = Some(bytes);
    } else {
        proof {
            assert forall|m: CommandModel| wf_command(m) implies !parses_at(
                b@,
                pos as int,
                #[trigger] enc_command(m),
            ) by {
                if parses_at(b@, pos as int, enc_command(m)) {
                    lemma_tag_prefix(b@, pos as int, m);
                    lemma_insert_layout(b@, pos as int, m);
                }
            }
        }
        return None;
    }
    let c = Command::Insert { id, vector, metadata };
    proof {
        let mm = c.model();
        lemma_enc_u32s_len(vector@);
        let md_model = mm->Insert_metadata;
        assert(parses_at(b@, q as int, enc_metadata(md_model)));
        assert(parses_at(b@, start as int, enc_u32s(vector@)));
        assert(parses_at(b@, pos as int, le_u32(0)));
        assert(parses_at(b@, pos + 4, le_u64(id)));
        assert(parses_at(b@, pos + 12, le_u64(n as u64)));
        lemma_parses_concat(b@, pos as int, le_u32(0), le_u64(id));
        lemma_parses_concat(b@, pos as int, le_u32(0) + le_u64(id), le_u64(n as u64));
        lemma_parses_concat(
            b@,
            pos as int,
            le_u32(0) + le_u64(id) + le_u64(n as u64),
            enc_u32s(vector@),
        );
        lemma_parses_concat(
            b@,
            pos as int,
            le_u32(0) + le_u64(id) + le_u64(n as u64) + enc_u32s(vector@),
            enc_metadata(md_model),
        );
        lemma_model_wf(&c);
    }
    Some((c, end))
}

fn decode_batch(b: &[u8], pos: usize) -> (r: Option<(Command, usize)>)
    requires
        pos + 4 <= b@.len(),
        read_le_u32(b@, pos as int) == 2,
    ensures
        decoded_command(b@, pos as int, r),
    decreases b@.len() - pos, 0nat,
{
    let len = b.len();
    proof {
        lemma_le_u32_of_read(b@, pos as int);
    }
    if len - pos < 12 {
        proof {
            assert forall|m: CommandModel| wf_command(m) implies !parses_at(
                b@,
                pos as int,
                #[trigger] enc_command(m),
            ) by {
                if parses_at(b@, pos as int, enc_command(m)) {
                    lemma_tag_prefix(b@, pos as int, m);
                    lemma_batch_layout(b@, pos as int, m);
                }
            }
        }
        return None;
    }
    let n = get_le_u64(b, pos + 4);
    proof {
        lemma_le_u64_of_read(b@, pos + 4);
    }
    let start = pos + 12;
    let mut cur = start;
    let mut out: Vec<Command> = Vec::new();
    let mut k: u64 = 0;
    proof {
        assert(b@.subrange(start as int, start as int) =~= enc_commands(commands_model(out@)));
        assert forall|cs: Seq<CommandModel>|
            cs.len() == n && wf_commands(cs) && #[trigger] parses_at(
                b@,
                start as int,
                enc_commands(cs),
            ) implies cs.subrange(0, 0) == commands_model(out@) by {
            assert(cs.subrange(0, 0) =~= commands_model(out@));
        }
    }
    while k < n
        invariant
            pos + 12 == start,
            pos + 4 <= b@.len(),
            read_le_u32(b@, pos as int) == 2,
            le_u32(2) == b@.subrange(pos as int, pos + 4),
            start <= cur <= b@.len(),
            k <= n,
            n == read_le_u64(b@, pos + 4),
            le_u64(n) == b@.subrange(pos + 4, pos + 12),
            out@.len() == k,
            wf_commands(commands_model(out@)),
            cur == start + enc_commands(commands_model(out@)).len(),
            parses_at(b@, start as int, enc_commands(commands_model(out@))),
            forall|cs: Seq<CommandModel>|
                cs.len() == n && wf_commands(cs) && #[trigger] parses_at(
                    b@,
                    start as int,
                    enc_commands(cs),
                ) ==> cs.subrange(0, k as int) == commands_model(out@),
        decreases n - k,
    {
        let r = decode_command(b, cur);
        match r {
            None => {
                proof {
                    assert forall|m: CommandModel| wf_command(m) implies !parses_at(
                        b@,
                        pos as int,
                        #[trigger] enc_command(m),
                    ) by {
                        if parses_at(b@, pos as int, enc_command(m)) {
                            lemma_tag_prefix(b@, pos as int, m);
                            lemma_batch_layout(b@, pos as int, m);
                            let cs = m->Batch_0;
                            assert(cs.len() == n);
                            assert(cs.subrange(0, k as int) == commands_model(out@));
                            lemma_enc_commands_split(cs, k as int);
                            let rest = cs.subrange(k as int, cs.len() as int);
                            lemma_parses_concat(
                                b@,
                                start as int,
                                enc_commands(cs.subrange(0, k as int)),
                                enc_commands(rest),
                            );
                            lemma_enc_commands_front(rest);
                            lemma_parses_concat(
                                b@,
                                cur as int,
                                enc_command(rest[0]),
                                enc_commands(rest.drop_first()),
                            );
                            lemma_wf_commands_elems(cs);
                            assert(wf_command(rest[0]));
                        }
                    }
                }
                return None;
            },
            Some((c, next)) => {
                proof {
                    let ms = commands_model(out@);
                    let cm = c.model();
                    lemma_parses_concat(b@, start as int, enc_commands(ms), enc_command(cm));
                    assert(out@.push(c).drop_last() =~= out@);
                    assert(commands_model(out@.push(c)) == ms.push(cm));
                    assert(ms.push(cm).drop_last() =~= ms);
                    assert forall|cs: Seq<CommandModel>|
                        cs.len() == n && wf_commands(cs) && #[trigger] parses_at(
                            b@,
                            start as int,
                            enc_commands(cs),
                        ) implies cs.subrange(0, k + 1) == ms.push(cm) by {
                        assert(cs.subrange(0, k as int) == ms);
                        lemma_enc_commands_split(cs, k as int);
                        let rest = cs.subrange(k as int, cs.len() as int);
                        lemma_parses_concat(
                            b@,
                            start as int,
                            enc_commands(cs.subrange(0, k as int)),
                            enc_commands(rest),
                        );
                        lemma_enc_commands_front(rest);
                        lemma_parses_concat(
                            b@,
                            cur as int,
                            enc_command(rest[0]),
                            enc_commands(rest.drop_first()),
                        );
                        lemma_wf_commands_elems(cs);
                        assert(wf_command(rest[0]));
                        lemma_command_prefix_free(b@, cur as int, cm, rest[0]);
                        assert(cs.subrange(0, k + 1) =~= cs.subrange(0, k as int).push(rest[0]));
                    }
                }
                out.push(c);
                cur = next;
                k = k + 1;
            },
        }
    }
    let c = Command::Batch(out);
    proof {
        let ms = commands_model(out@);
        lemma_commands_model(out@);
        assert(ms.len() == n);
        assert(c.model() == CommandModel::Batch(ms));
        lemma_parses_concat(b@, pos as int, le_u32(2), le_u64(n));
        lemma_parses_concat(b@, pos as int, le_u32(2) + le_u64(n), enc_commands(ms));
        lemma_model_wf(&c);
    }
    Some((c, cur))
}

/// Decode the command whose layout starts at `pos`.
///
/// The result is `Some` exactly when the bytes at `pos` begin with the layout
/// of a command, and then holds that command and the position after it.
pub fn decode_command(b: &[u8], pos: usize) -> (r: Option<(Command, usize)>)
    requires
        pos <= b@.len(),
    ensures
        decoded_command(b@, pos as int, r),
    decreases b@.len() - pos, 1nat,
{
    let len = b.len();
    if len - pos < 4 {
        return None;
    }
    let tag = get_le_u32(b, pos);
    proof {
        lemma_le_u32_of_read(b@, pos as int);
    }
    if tag == 0 {
        decode_insert(b, pos)
    } else if tag == 1 {
        if len - pos < 12 {
            proof {
                assert forall|m: CommandModel| wf_command(m) implies !parses_at(
                    b@,
                    pos as int,
                    #[trigger] enc_command(m),
                ) by {
                    if parses_at(b@, pos as int, enc_command(m)) {
                        lemma_tag_prefix(b@, pos as int, m);
                        lemma_delete_layout(b@, pos as int, m);
                    }
                }
            }
            return None;
        }
        let id = get_le_u64(b, pos + 4);
        proof {
            lemma_le_u64_of_read(b@, pos + 4);
            lemma_parses_concat(b@, pos as int, le_u32(1), le_u64(id));
        }
        Some((Command::Delete { id }, pos + 12))
    } else if tag == 2 {
        decode_batch(b, pos)
    } else if tag == 3 {
        Some((Command::Noop, pos + 4))
    } else {
        proof {
            assert forall|m: CommandModel| wf_command(m) implies !parses_at(
                b@,
                pos as int,
                #[trigger] enc_command(m),
            ) by {
                if parses_at(b@, pos as int, enc_command(m)) {
                    lemma_tag_prefix(b@, pos as int, m);
                }
            }
        }
        None
    }
}


fn encode_u32s_into(v: &Vec<u32>, out: &mut Vec<u8>)
    ensures
        final(out)@ == old(out)@ + enc_u32s(v@),
{
    let ghost start = out@;
    let mut i: usize = 0;
    while i < v.len()
        invariant
            i <= v@.len(),
            out@ == start + enc_u32s(v@.subrange(0, i as int)),
        decreases v.len() - i,
    {
        push_le_u32(out, v[i]);
        proof {
            let s1 = v@.subrange(0, i + 1);
            assert(s1.drop_last() =~= v@.subrange(0, i as int));
            assert(s1.last() == v@[i as int]);
            assert(out@ =~= start + enc_u32s(s1));
        }
        i = i + 1;
    }
    assert(v@.subrange(0, v@.len() as int) =~= v@);
}

/// Append the layout of `c` to `out`.
pub fn encode_command_into(c: &Command, out: &mut Vec<u8>)
    ensures
        final(out)@ == old(out)@ + enc_command(c.model()),
    decreases c,
{
    let ghost start = out@;
    match c {
        Command::Insert { id, vector, metadata } => {
            push_le_u32(out, 0);
            push_le_u64(out, *id);
            push_le_u64(out, vector.len() as u64);
            encode_u32s_into(vector, out);
            match metadata {
                None => {
                    out.push(0u8);
                },
                Some(m) => {
                    out.push(1u8);
                    push_le_u64(out, m.len() as u64);
                    let ghost before = out@;
                    let mut i: usize = 0;
                    while i < m.len()
                        invariant
                            i <= m@.len(),
                            out@ == before + m@.subrange(0, i as int),
                        decreases m.len() - i,
                    {
                        out.push(m[i]);
                        i = i + 1;
                        assert(out@ =~= before + m@.subrange(0, i as int));
                    }
                    assert(m@.subrange(0, m@.len() as int) =~= m@);
                },
            }
            assert(out@ =~= start + enc_command(c.model()));
        },
        Command::Delete { id } => {
            push_le_u32(out, 1);
            push_le_u64(out, *id);
            assert(out@ =~= start + enc_command(c.model()));
        },
        Command::Batch(cs) => {
            push_le_u32(out, 2);
            push_le_u64(out, cs.len() as u64);
            let ghost before = out@;
            let mut i: usize = 0;
            while i < cs.len()
                invariant
                    i <= cs@.len(),
                    *c == Command::Batch(*cs),
                    out@ == before + enc_commands(commands_model(cs@.subrange(0, i as int))),
                decreases cs.len() - i,
            {
                proof {
                    assert(decreases_to!(*c => (*c)->Batch_0));
                    assert((*c)->Batch_0 == *cs);
                    assert(decreases_to!(*cs => cs@));
                    assert(decreases_to!(cs@ => cs@[i as int]));
                }
                encode_command_into(&cs[i], out);
                proof {
                    let s1 = cs@.subrange(0, i + 1);
                    assert(s1.drop_last() =~= cs@.subrange(0, i as int));
                    assert(s1.last() == cs@[i as int]);
                    let ms = commands_model(cs@.subrange(0, i as int));
                    assert(commands_model(s1) == ms.push(cs@[i as int].model()));
                    assert(ms.push(cs@[i as int].model()).drop_last() =~= ms);
                    assert(out@ =~= before + enc_commands(commands_model(s1)));
                }
                i = i + 1;
            }
            assert(cs@.subrange(0, cs@.len() as int) =~= cs@);
            proof {
                lemma_commands_model(cs@);
            }
            assert(out@ =~= start + enc_command(c.model()));
        },
        Command::Noop => {
            push_le_u32(out, 3);
        },
    }
}

/// Entries whose commands are well formed.
pub open spec fn wf_entry(e: LogEntryModel) -> bool {
    wf_command(e.command)
}

/// The well-formed entry whose layout begins `b`, if there is one.
pub open spec fn entry_in(b: Seq<u8>) -> Option<LogEntryModel> {
    if exists|e: LogEntryModel| wf_entry(e) && #[trigger] parses_at(b, 0, enc_entry(e)) {
        Some(choose|e: LogEntryModel| wf_entry(e) && #[trigger] parses_at(b, 0, enc_entry(e)))
    } else {
        None
    }
}

/// Two well-formed entries whose layouts both start at `p` are equal.
pub proof fn lemma_entry_prefix_free(b: Seq<u8>, p: int, e1: LogEntryModel, e2: LogEntryModel)
    requires
        wf_entry(e1),
        wf_entry(e2),
        parses_at(b, p, enc_entry(e1)),
        parses_at(b, p, enc_entry(e2)),
    ensures
        e1 == e2,
{
    lemma_parses_concat(b, p, le_u64(e1.term) + le_u64(e1.index), enc_command(e1.command));
    lemma_parses_concat(b, p, le_u64(e2.term) + le_u64(e2.index), enc_command(e2.command));
    lemma_parses_concat(b, p, le_u64(e1.term), le_u64(e1.index));
    lemma_parses_concat(b, p, le_u64(e2.term), le_u64(e2.index));
    lemma_read_le_u64(b, p, e1.term);
    lemma_read_le_u64(b, p, e2.term);
    lemma_read_le_u64(b, p + 8, e1.index);
    lemma_read_le_u64(b, p + 8, e2.index);
    lemma_command_prefix_free(b, p + 16, e1.command, e2.command);
}

/// The layout of `e`.
pub fn encode_entry(e: &LogEntry) -> (r: Vec<u8>)
    ensures
        r@ == enc_entry(e.model()),
{
    let mut out: Vec<u8> = Vec::new();
    push_le_u64(&mut out, e.term);
    push_le_u64(&mut out, e.index);
    encode_command_into(&e.command, &mut out);
    assert(out@ =~= enc_entry(e.model()));
    out
}

/// Decode the entry whose layout starts `b` (bytes after it are ignored).
///
/// The result is `Some(e)` exactly when `b` begins with the layout of an
/// entry, and `e` is then that entry.
pub fn decode_entry(b: &[u8]) -> (r: Option<LogEntry>)
    ensures
        match entry_in(b@) {
            Some(m) => r matches Some(e) && e.model() == m,
            None => r is None,
        },
        r matches Some(e) ==> wf_entry(e.model()) && parses_at(b@, 0, enc_entry(e.model())),
        r is None ==> forall|m: LogEntryModel|
            wf_entry(m) ==> !parses_at(b@, 0, #[trigger] enc_entry(m)),
        forall|m: LogEntryModel|
            wf_entry(m) && #[trigger] parses_at(b@, 0, enc_entry(m)) ==> (r matches Some(e)
                && e.model() == m),
{
    let r = decode_entry_layout(b);
    proof {
        if r is Some {
            let e = r.unwrap().model();
            assert(wf_entry(e) && parses_at(b@, 0, enc_entry(e)));
        }
    }
    r
}

/// Decode the entry whose layout starts `b`, if there is one.
fn decode_entry_layout(b: &[u8]) -> (r: Option<LogEntry>)
    ensures
        r matches Some(e) ==> wf_entry(e.model()) && parses_at(b@, 0, enc_entry(e.model())),
        r is None ==> forall|m: LogEntryModel|
            wf_entry(m) ==> !parses_at(b@, 0, #[trigger] enc_entry(m)),
        forall|m: LogEntryModel|
            wf_entry(m) && #[trigger] parses_at(b@, 0, enc_entry(m)) ==> (r matches Some(e)
                && e.model() == m),
{
    if b.len() < 16 {
        proof {
            assert forall|m: LogEntryModel| wf_entry(m) implies !parses_at(
                b@,
                0,
                #[trigger] enc_entry(m),
            ) by {
                lemma_enc_command_len(m.command);
            }
        }
        return None;
    }
    let term = get_le_u64(b, 0);
    let index = get_le_u64(b, 8);
    proof {
        lemma_le_u64_of_read(b@, 0);
        lemma_le_u64_of_read(b@, 8);
    }
    let r = decode_command(b, 16);
    match r {
        None => {
            proof {
                assert forall|m: LogEntryModel| wf_entry(m) implies !parses_at(
                    b@,
                    0,
                    #[trigger] enc_entry(m),
                ) by {
                    if parses_at(b@, 0, enc_entry(m)) {
                        lemma_parses_concat(
                            b@,
                            0,
                            le_u64(m.term) + le_u64(m.index),
                            enc_command(m.command),
                        );
                    }
                }
            }
            None
        },
        Some((command, _end)) => {
            let e = LogEntry { term, index, command };
            proof {
                lemma_parses_concat(b@, 0, le_u64(term), le_u64(index));
                lemma_parses_concat(
                    b@,
                    0,
                    le_u64(term) + le_u64(index),
                    enc_command(e.command.model()),
                );
                assert forall|m: LogEntryModel|
                    wf_entry(m) && #[trigger] parses_at(b@, 0, enc_entry(m)) implies e.model()
                    == m by {
                    lemma_entry_prefix_free(b@, 0, e.model(), m);
                }
            }
            Some(e)
        },
    }
}


fn copy_u32s(v: &Vec<u32>) -> (r: Vec<u32>)
    ensures
        r@ == v@,
{
    let mut out: Vec<u32> = Vec::new();
    let mut i: usize = 0;
    while i < v.len()
        invariant
            i <= v@.len(),
            out@ == v@.subrange(0, i as int),
        decreases v.len() - i,
    {
        out.push(v[i]);
        i = i + 1;
        assert(out@ =~= v@.subrange(0, i as int));
    }
    assert(v@.subrange(0, v@.len() as int) =~= v@);
    out
}

fn copy_u8s(v: &Vec<u8>) -> (r: Vec<u8>)
    ensures
        r@ == v@,
{
    let mut out: Vec<u8> = Vec::new();
    let mut i: usize = 0;
    while i < v.len()
        invariant
            i <= v@.len(),
            out@ == v@.subrange(0, i as int),
        decreases v.len() - i,
    {
        out.push(v[i]);
        i = i + 1;
        assert(out@ =~= v@.subrange(0, i as int));
    }
    assert(v@.subrange(0, v@.len() as int) =~= v@);
    out
}

impl Clone for Command {
    /// A command with the same value.
    fn clone(&self) -> (r: Self)
        ensures
            r.model() == self.model(),
        decreases self,
    {
        match self {
            Command::Insert { id, vector, metadata } => {
                let md = match metadata {
                    Some(m) => Some(copy_u8s(m)),
                    None => None,
                };
                Command::Insert { id: *id, vector: copy_u32s(vector), metadata: md }
            },
            Command::Delete { id } => Command::Delete { id: *id },
            Command::Batch(cs) => {
                let mut out: Vec<Command> = Vec::new();
                let mut i: usize = 0;
                while i < cs.len()
                    invariant
                        i <= cs@.len(),
                        *self == Command::Batch(*cs),
                        commands_model(out@) == commands_model(cs@.subrange(0, i as int)),
                    decreases cs.len() - i,
                {
                    proof {
                        assert(decreases_to!(*self => (*self)->Batch_0));
                        assert((*self)->Batch_0 == *cs);
                        assert(decreases_to!(*cs => cs@));
                        assert(decreases_to!(cs@ => cs@[i as int]));
                    }
                    let c = cs[i].clone();
                    proof {
                        let s1 = cs@.subrange(0, i + 1);
                        assert(s1.drop_last() =~= cs@.subrange(0, i as int));
                        assert(out@.push(c).drop_last() =~= out@);
                    }
                    out.push(c);
                    i = i + 1;
                }
                assert(cs@.subrange(0, cs@.len() as int) =~= cs@);
                Command::Batch(out)
            },
            Command::Noop => Command::Noop,
        }
    }
}

impl Clone for LogEntry {
    /// An entry with the same value.
    fn clone(&self) -> (r: Self)
        ensures
            r.model() == self.model(),
    {
        LogEntry { term: self.term, index: self.index, command: self.command.clone() }
    }
}

impl LogEntry {
    /// Create a new log entry.
    pub fn new(term: u64, index: u64, command: Command) -> (r: Self)
        ensures
            r.term == term,
            r.index == index,
            r.command == command,
    {
        LogEntry { term, index, command }
    }

    /// The entry's layout. Laying out an entry does not fail.
    pub fn to_bytes(&self) -> (r: Result<Vec<u8>, VajraError>)
        ensures
            r matches Ok(b) && b@ == enc_entry(self.model()),
    {
        Ok(encode_entry(self))
    }

    /// The entry whose layout begins `data` (bytes after it are ignored);
    /// a serialization error when `data` does not begin with one.
    pub fn from_bytes(data: &[u8]) -> (r: Result<LogEntry, VajraError>)
        ensures
            match entry_in(data@) {
                Some(m) => r matches Ok(e) && e.model() == m,
                None => r matches Err(VajraError::Serialization { context, message }) && context@
                    == "deserializing log entry"@ && message@ == "no log entry at the start of the data"@,
            },
    {
        match decode_entry(data) {
            Some(e) => Ok(e),
            None => Err(
                VajraError::Serialization {
                    context: String::from_str("deserializing log entry"),
                    message: String::from_str("no log entry at the start of the data"),
                },
            ),
        }
    }
}

/// Every entry reads back from its own layout.
pub proof fn lemma_entry_round_trip(e: LogEntryModel)
    requires
        wf_entry(e),
    ensures
        entry_in(enc_entry(e)) == Some(e),
{
    let b = enc_entry(e);
    assert(b.subrange(0, b.len() as int) =~= b);
    assert(parses_at(b, 0, enc_entry(e)));
    let m = choose|m: LogEntryModel| wf_entry(m) && #[trigger] parses_at(b, 0, enc_entry(m));
    lemma_entry_prefix_free(b, 0, m, e);
}

} // verus!

//! The conversation in which the server hands a worker what a build needs:
//! the exchanges the server makes, and the worker's side as a state machine
//! that is told what was read and answers what to write and read next.

use vstd::prelude::*;
use vstd::utf8::{encode_utf8, valid_utf8};

use crate::duplicate::Duplicate;
use crate::foreign::bytes_are_utf8;
use crate::ordered::{lists_in_order, named_map_of, names_in_order, ordered_by_name};
use crate::network::worker::{
    append_bytes, be_bytes, be_decode, be_value, encode_envs, encode_frame, envs_block, envs_fit, frame_of,
    archive_message, decode_frame_at, frame_step, law_frame_round_trip, law_status_code_table, lemma_be_bytes_len,
    lemma_be_round_trip, lemma_be_value_bound, pow256, status_code, Progress, WorkerStatus,
};

verus! {

/// One move of the server in a conversation.
#[derive(Debug, Clone, PartialEq, Eq)]
pub enum Step {
    /// Read one byte, which must announce this state.
    Expect(WorkerStatus),
    /// Write these bytes.
    Send(Vec<u8>),
}

/// A move of the server, as the byte it expects or the bytes it writes.
pub enum StepModel {
    Expect(u8),
    Send(Seq<u8>),
}

impl DeepView for Step {
    type V = StepModel;

    open spec fn deep_view(&self) -> StepModel {
        match self {
            Step::Expect(s) => StepModel::Expect(status_code(*s)),
            Step::Send(b) => StepModel::Send(b@),
        }
    }
}

/// What kind of item is handed over.
#[derive(Debug, Clone, Copy, PartialEq, Eq, Structural)]
pub enum ItemKind {
    Source,
    Dep,
    Overlay,
}

/// The byte with which the worker asks for the next item of a kind.
pub open spec fn ready_code(kind: ItemKind) -> u8 {
    match kind {
        ItemKind::Source => status_code(WorkerStatus::ReadyForSource),
        ItemKind::Dep => status_code(WorkerStatus::ReadyForDep),
        ItemKind::Overlay => status_code(WorkerStatus::ReadyForOverlay),
    }
}

/// The byte with which the worker asks for the rest of an item it was named.
pub open spec fn need_code(kind: ItemKind) -> u8 {
    match kind {
        ItemKind::Source => status_code(WorkerStatus::NeedSource),
        ItemKind::Dep => status_code(WorkerStatus::NeedDep),
        ItemKind::Overlay => status_code(WorkerStatus::NeedOverlay),
    }
}

/// Each kind of item is asked for with its own states: a source with ready
/// for a source (1) and need a source (4), a dependency with ready for a
/// dependency (5) and need a dependency (7), an overlay with ready for an
/// overlay (2) and need an overlay (9); no two kinds share a byte, and no
/// ready byte is a need byte.
pub proof fn law_item_codes(k1: ItemKind, k2: ItemKind)
    ensures
        ready_code(ItemKind::Source) == status_code(WorkerStatus::ReadyForSource),
        ready_code(ItemKind::Dep) == status_code(WorkerStatus::ReadyForDep),
        ready_code(ItemKind::Overlay) == status_code(WorkerStatus::ReadyForOverlay),
        need_code(ItemKind::Source) == status_code(WorkerStatus::NeedSource),
        need_code(ItemKind::Dep) == status_code(WorkerStatus::NeedDep),
        need_code(ItemKind::Overlay) == status_code(WorkerStatus::NeedOverlay),
        ready_code(ItemKind::Source) == 1 && ready_code(ItemKind::Dep) == 5 && ready_code(ItemKind::Overlay) == 2,
        need_code(ItemKind::Source) == 4 && need_code(ItemKind::Dep) == 7 && need_code(ItemKind::Overlay) == 9,
        k1 != k2 ==> ready_code(k1) != ready_code(k2) && need_code(k1) != need_code(k2),
        ready_code(k1) != need_code(k2),
{
    law_status_code_table(0);
}

fn ready_status(kind: ItemKind) -> (res: WorkerStatus)
    ensures
        status_code(res) == ready_code(kind),
        res == match kind {
            ItemKind::Source => WorkerStatus::ReadyForSource,
            ItemKind::Dep => WorkerStatus::ReadyForDep,
            ItemKind::Overlay => WorkerStatus::ReadyForOverlay,
        },
{
    match kind {
        ItemKind::Source => WorkerStatus::ReadyForSource,
        ItemKind::Dep => WorkerStatus::ReadyForDep,
        ItemKind::Overlay => WorkerStatus::ReadyForOverlay,
    }
}

fn need_status(kind: ItemKind) -> (res: WorkerStatus)
    ensures
        status_code(res) == need_code(kind),
        res == match kind {
            ItemKind::Source => WorkerStatus::NeedSource,
            ItemKind::Dep => WorkerStatus::NeedDep,
            ItemKind::Overlay => WorkerStatus::NeedOverlay,
        },
{
    match kind {
        ItemKind::Source => WorkerStatus::NeedSource,
        ItemKind::Dep => WorkerStatus::NeedDep,
        ItemKind::Overlay => WorkerStatus::NeedOverlay,
    }
}

/// An item handed over: its name, the description of a source (empty for
/// other kinds) and its bytes.
pub struct ItemModel {
    pub name: Seq<u8>,
    pub contents: Seq<u8>,
    pub data: Seq<u8>,
}

/// The server's exchange that hands the worker one item.
pub open spec fn item_exchange(kind: ItemKind, x: ItemModel) -> Seq<StepModel> {
    if kind == ItemKind::Source {
        seq![
            StepModel::Expect(ready_code(kind)),
            StepModel::Send(frame_of(2, x.name)),
            StepModel::Expect(need_code(kind)),
            StepModel::Send(frame_of(4, x.contents)),
            StepModel::Send(frame_of(8, x.data)),
        ]
    } else {
        seq![
            StepModel::Expect(ready_code(kind)),
            StepModel::Send(frame_of(2, x.name)),
            StepModel::Expect(need_code(kind)),
            StepModel::Send(frame_of(8, x.data)),
        ]
    }
}

/// The server's exchange that tells the worker no item of a kind follows.
pub open spec fn finish_exchange_of(kind: ItemKind) -> Seq<StepModel> {
    seq![StepModel::Expect(ready_code(kind)), StepModel::Send(seq![0u8, 0u8])]
}

/// An item can be handed over: its name takes fewer than 65536 bytes, a
/// source's description fewer than `2^32`.
pub open spec fn item_fits(kind: ItemKind, x: ItemModel) -> bool {
    &&& x.name.len() < pow256(2)
    &&& kind == ItemKind::Source ==> x.contents.len() < pow256(4)
}

proof fn lemma_pow256_values()
    ensures
        pow256(2) == 0x1_0000,
        pow256(4) == 0x1_0000_0000,
        pow256(8) == 0x1_0000_0000_0000_0000,
{
    reveal_with_fuel(pow256, 9);
}

fn frame8(data: &[u8]) -> (res: Vec<u8>)
    ensures
        res@ == frame_of(8, data@),
{
    let n = data.len();
    proof {
        lemma_pow256_values();
        assert(n <= usize::MAX);
    }
    match encode_frame(8, data) {
        Some(f) => f,
        None => {
            assert(false);
            Vec::new()
        },
    }
}

fn item_exchange_exec(kind: ItemKind, name: &[u8], contents: &[u8], data: &[u8]) -> (res: Vec<Step>)
    requires
        kind != ItemKind::Source ==> contents@.len() == 0,
        item_fits(kind, ItemModel { name: name@, contents: contents@, data: data@ }),
    ensures
        res.deep_view() == item_exchange(
            kind,
            ItemModel { name: name@, contents: contents@, data: data@ },
        ),
{
    let name_frame = match encode_frame(2, name) {
        Some(f) => f,
        None => {
            assert(false);
            Vec::new()
        },
    };
    let mut steps: Vec<Step> = Vec::new();
    steps.push(Step::Expect(ready_status(kind)));
    steps.push(Step::Send(name_frame));
    steps.push(Step::Expect(need_status(kind)));
    if kind == ItemKind::Source {
        match encode_frame(4, contents) {
            Some(f) => {
                steps.push(Step::Send(f));
            },
            None => {
                assert(false);
            },
        }
    }
    steps.push(Step::Send(frame8(data)));
    let ghost x = ItemModel { name: name@, contents: contents@, data: data@ };
    assert(steps.deep_view() =~= item_exchange(kind, x));
    steps
}

/// The source `name` (its SHA-256 digest) described by `contents`, with
/// bytes `data`, as an item.
pub open spec fn source_item(name: Seq<char>, contents: Seq<u8>, data: Seq<u8>) -> ItemModel {
    ItemModel { name: encode_utf8(name), contents, data }
}

/// The build output `data` of the dependency hashed `hash`, as an item.
pub open spec fn dep_item(hash: Seq<char>, data: Seq<u8>) -> ItemModel {
    ItemModel { name: encode_utf8(hash), contents: Seq::empty(), data }
}

/// The overlay file at `path` (its bytes) with bytes `data`, as an item.
pub open spec fn overlay_item(path: Seq<u8>, data: Seq<u8>) -> ItemModel {
    ItemModel { name: path, contents: Seq::empty(), data }
}

/// The exchange that hands the worker the source `name` (its SHA-256
/// digest), described by `contents`, with bytes `data`. The name must take
/// fewer than 65536 bytes and the description fewer than `2^32`.
pub fn source_exchange(name: &str, contents: &[u8], data: &[u8]) -> (res: Vec<Step>)
    requires
        item_fits(ItemKind::Source, source_item(name@, contents@, data@)),
    ensures
        res.deep_view() == item_exchange(ItemKind::Source, source_item(name@, contents@, data@)),
{
    item_exchange_exec(ItemKind::Source, name.as_bytes(), contents, data)
}

/// The exchange that hands the worker the build output of the dependency
/// hashed `hash`, with bytes `data`. The hash must take fewer than 65536
/// bytes.
pub fn dep_exchange(hash: &str, data: &[u8]) -> (res: Vec<Step>)
    requires
        item_fits(ItemKind::Dep, dep_item(hash@, data@)),
    ensures
        res.deep_view() == item_exchange(ItemKind::Dep, dep_item(hash@, data@)),
{
    let empty: Vec<u8> = Vec::new();
    assert(empty@ =~= Seq::<u8>::empty());
    item_exchange_exec(ItemKind::Dep, hash.as_bytes(), empty.as_slice(), data)
}

/// The exchange that hands the worker the overlay file at `path` (its
/// bytes) with bytes `data`. The path must take fewer than 65536 bytes.
pub fn overlay_exchange(path: &[u8], data: &[u8]) -> (res: Vec<Step>)
    requires
        item_fits(ItemKind::Overlay, overlay_item(path@, data@)),
    ensures
        res.deep_view() == item_exchange(ItemKind::Overlay, overlay_item(path@, data@)),
{
    let empty: Vec<u8> = Vec::new();
    assert(empty@ =~= Seq::<u8>::empty());
    item_exchange_exec(ItemKind::Overlay, path, empty.as_slice(), data)
}

/// The exchange that tells the worker no more items of `kind` follow.
pub fn finish_exchange(kind: ItemKind) -> (res: Vec<Step>)
    ensures
        res.deep_view() == finish_exchange_of(kind),
{
    let mut steps: Vec<Step> = Vec::new();
    steps.push(Step::Expect(ready_status(kind)));
    steps.push(Step::Send(vec![0u8, 0u8]));
    assert(steps.deep_view() =~= finish_exchange_of(kind));
    steps
}

/// The server's exchange that starts a build of the recipe whose encoding
/// is `recipe`.
pub open spec fn recipe_exchange_of(recipe: Seq<u8>) -> Seq<StepModel> {
    seq![
        StepModel::Expect(status_code(WorkerStatus::ReadyForWork)),
        StepModel::Send(seq![0u8]),
        StepModel::Send(frame_of(8, recipe)),
    ]
}

/// The exchange that starts a build of the recipe whose encoding is `recipe`.
pub fn recipe_exchange(recipe: &[u8]) -> (res: Vec<Step>)
    ensures
        res.deep_view() == recipe_exchange_of(recipe@),
{
    let mut steps: Vec<Step> = Vec::new();
    steps.push(Step::Expect(WorkerStatus::ReadyForWork));
    let start: Vec<u8> = vec![0u8];
    assert(start@ =~= seq![0u8]);
    steps.push(Step::Send(start));
    steps.push(Step::Send(frame8(recipe)));
    assert(steps.deep_view() =~= recipe_exchange_of(recipe@));
    steps
}

/// The server's exchange that hands the worker its environment.
pub open spec fn envs_exchange_of(envs: Seq<(Seq<char>, Seq<char>)>) -> Seq<StepModel> {
    seq![StepModel::Expect(status_code(WorkerStatus::ReadyForEnvs)), StepModel::Send(envs_block(envs))]
}

/// The exchange that hands the worker the environment `envs`, listed in
/// increasing order of name, each name once, which must fit in the worker's
/// reading of it.
pub fn envs_exchange(envs: &Vec<(String, String)>) -> (res: Vec<Step>)
    requires
        names_in_order(envs.deep_view()),
        envs_fit(envs.deep_view()),
    ensures
        res.deep_view() == envs_exchange_of(envs.deep_view()),
{
    let block = match encode_envs(envs) {
        Some(b) => b,
        None => {
            assert(false);
            Vec::new()
        },
    };
    let mut steps: Vec<Step> = Vec::new();
    steps.push(Step::Expect(WorkerStatus::ReadyForEnvs));
    steps.push(Step::Send(block));
    assert(steps.deep_view() =~= envs_exchange_of(envs.deep_view()));
    steps
}

fn copy_bytes(b: &[u8]) -> (res: Vec<u8>)
    ensures
        res@ == b@,
{
    let mut out: Vec<u8> = Vec::new();
    append_bytes(&mut out, b);
    assert(out@ =~= b@);
    out
}

/// What the worker does next: write some bytes, then read exactly so many
/// bytes and hand them to the reader; or stop, the conversation over; or
/// stop because the server broke the protocol.
#[derive(Debug, Clone, PartialEq, Eq)]
pub enum Action {
    Exchange(Vec<u8>, usize),
    Finish,
    Fail,
}

/// What the worker does next, as bytes to write and a count to read.
pub enum Move {
    Exchange(Seq<u8>, nat),
    Finish,
    Fail,
}

impl DeepView for Action {
    type V = Move;

    open spec fn deep_view(&self) -> Move {
        match self {
            Action::Exchange(b, n) => Move::Exchange(b@, *n as nat),
            Action::Finish => Move::Finish,
            Action::Fail => Move::Fail,
        }
    }
}

/// An item the worker received.
#[derive(Debug, Clone, PartialEq, Eq)]
pub struct ReceivedItem {
    pub name: Vec<u8>,
    pub contents: Vec<u8>,
    pub data: Vec<u8>,
}

impl DeepView for ReceivedItem {
    type V = ItemModel;

    open spec fn deep_view(&self) -> ItemModel {
        ItemModel { name: self.name@, contents: self.contents@, data: self.data@ }
    }
}

/// What the worker reads next of an item.
#[derive(Debug, Clone, Copy, PartialEq, Eq, Structural)]
pub enum ItemPhase {
    NameLength,
    Name,
    ContentsLength,
    Contents,
    DataLength,
    Data,
    Over,
}

/// What a reader reads next and how many bytes it asked for: a length in
/// as many bytes as that length takes.
struct Asking {
    phase: ItemPhase,
    pending: usize,
}

impl Asking {
    #[verifier::type_invariant]
    spec fn lengths_fit(self) -> bool {
        &&& self.phase == ItemPhase::NameLength ==> self.pending == 2
        &&& self.phase == ItemPhase::ContentsLength ==> self.pending == 4
        &&& self.phase == ItemPhase::DataLength ==> self.pending == 8
    }
}

/// The worker's side of handing over the items of one kind.
pub struct ItemReader {
    kind: ItemKind,
    asking: Asking,
    name: Vec<u8>,
    contents: Vec<u8>,
    items: Vec<ReceivedItem>,
}

/// The state of an item reader: the kind of items, what it reads next and
/// how many bytes it asked for, the name and description of the item under
/// way, and the items received.
#[verifier::ext_equal]
pub struct ItemReaderModel {
    pub kind: ItemKind,
    pub phase: ItemPhase,
    pub pending: nat,
    pub name: Seq<u8>,
    pub contents: Seq<u8>,
    pub items: Seq<ItemModel>,
}

/// A reader asks for a length in as many bytes as that length takes: two
/// for a name, four for a source's description, eight for an item's bytes.
pub open spec fn reader_wf(m: ItemReaderModel) -> bool {
    &&& m.phase == ItemPhase::NameLength ==> m.pending == 2
    &&& m.phase == ItemPhase::ContentsLength ==> m.pending == 4
    &&& m.phase == ItemPhase::DataLength ==> m.pending == 8
}

/// The reader `m`, now reading `phase` and asking for `n` bytes.
pub open spec fn asking(m: ItemReaderModel, phase: ItemPhase, n: nat) -> ItemReaderModel {
    ItemReaderModel { phase, pending: n, ..m }
}

/// The reader `m`, done.
pub open spec fn over(m: ItemReaderModel) -> ItemReaderModel {
    ItemReaderModel { phase: ItemPhase::Over, ..m }
}

/// What the worker does with `input`, the bytes it asked for, in state `m`:
/// a zero name length ends the items; a name of a source or a dependency
/// must be UTF-8; a length that cannot be held in memory, or input of
/// another size than asked for, breaks the protocol.
pub open spec fn item_step(m: ItemReaderModel, input: Seq<u8>) -> (ItemReaderModel, Move) {
    if m.phase == ItemPhase::Over || input.len() != m.pending {
        (over(m), Move::Fail)
    } else {
        match m.phase {
            ItemPhase::NameLength => {
                let n = be_value(input);
                if n == 0 {
                    (over(m), Move::Finish)
                } else {
                    (asking(m, ItemPhase::Name, n), Move::Exchange(Seq::empty(), n))
                }
            },
            ItemPhase::Name => {
                if m.kind != ItemKind::Overlay && !valid_utf8(input) {
                    (over(m), Move::Fail)
                } else if m.kind == ItemKind::Source {
                    (
                        ItemReaderModel { name: input, ..asking(m, ItemPhase::ContentsLength, 4) },
                        Move::Exchange(seq![need_code(m.kind)], 4),
                    )
                } else {
                    (
                        ItemReaderModel {
                            name: input,
                            contents: Seq::empty(),
                            ..asking(m, ItemPhase::DataLength, 8)
                        },
                        Move::Exchange(seq![need_code(m.kind)], 8),
                    )
                }
            },
            ItemPhase::ContentsLength => {
                let n = be_value(input);
                if n > usize::MAX {
                    (over(m), Move::Fail)
                } else {
                    (asking(m, ItemPhase::Contents, n), Move::Exchange(Seq::empty(), n))
                }
            },
            ItemPhase::Contents => (
                ItemReaderModel { contents: input, ..asking(m, ItemPhase::DataLength, 8) },
                Move::Exchange(Seq::empty(), 8),
            ),
            ItemPhase::DataLength => {
                let n = be_value(input);
                if n > usize::MAX {
                    (over(m), Move::Fail)
                } else {
                    (asking(m, ItemPhase::Data, n), Move::Exchange(Seq::empty(), n))
                }
            },
            ItemPhase::Data => (
                ItemReaderModel {
                    items: m.items.push(ItemModel { name: m.name, contents: m.contents, data: input }),
                    ..asking(m, ItemPhase::NameLength, 2)
                },
                Move::Exchange(seq![ready_code(m.kind)], 2),
            ),
            ItemPhase::Over => (over(m), Move::Fail),
        }
    }
}

/// A reader of items of `kind` that has received none and asked for the
/// length of the first name.
pub open spec fn item_reader_start(kind: ItemKind) -> ItemReaderModel {
    ItemReaderModel {
        kind,
        phase: ItemPhase::NameLength,
        pending: 2,
        name: Seq::empty(),
        contents: Seq::empty(),
        items: Seq::empty(),
    }
}

impl ItemReader {
    /// The state of this reader.
    pub closed spec fn model(&self) -> ItemReaderModel {
        ItemReaderModel {
            kind: self.kind,
            phase: self.asking.phase,
            pending: self.asking.pending as nat,
            name: self.name@,
            contents: self.contents@,
            items: self.items.deep_view(),
        }
    }

    /// Starts receiving items of `kind`: the worker announces it is ready
    /// for one and reads the length of its name.
    pub fn start(kind: ItemKind) -> (res: (ItemReader, Action))
        ensures
            res.0.model() == item_reader_start(kind),
            reader_wf(res.0.model()),
            res.1.deep_view() == Move::Exchange(seq![ready_code(kind)], 2),
    {
        let reader = ItemReader {
            kind,
            asking: Asking { phase: ItemPhase::NameLength, pending: 2 },
            name: Vec::new(),
            contents: Vec::new(),
            items: Vec::new(),
        };
        assert(reader.model() =~= item_reader_start(kind));
        let send = vec![ready_status(kind).to_u8()];
        assert(send@ =~= seq![ready_code(kind)]);
        (reader, Action::Exchange(send, 2))
    }

    /// The items received so far, in the order they came.
    pub fn items(&self) -> (res: &Vec<ReceivedItem>)
        ensures
            res.deep_view() == self.model().items,
    {
        &self.items
    }

    fn ask(&mut self, phase: ItemPhase, send: Vec<u8>, n: usize) -> (act: Action)
        requires
            reader_wf(asking(old(self).model(), phase, n as nat)),
        ensures
            final(self).model() == asking(old(self).model(), phase, n as nat),
            act.deep_view() == Move::Exchange(send@, n as nat),
    {
        self.asking = Asking { phase, pending: n };
        Action::Exchange(send, n)
    }

    fn stop(&mut self, act: Action) -> (res: Action)
        ensures
            final(self).model() == over(old(self).model()),
            res == act,
    {
        self.asking = Asking { phase: ItemPhase::Over, pending: self.asking.pending };
        act
    }

    /// Takes `input`, the bytes last asked for, and answers what to do next.
    pub fn step(&mut self, input: &[u8]) -> (act: Action)
        ensures
            (final(self).model(), act.deep_view()) == item_step(old(self).model(), input@),
            reader_wf(old(self).model()),
            reader_wf(final(self).model()),
    {
        proof {
            use_type_invariant(&self.asking);
        }
        if self.asking.phase == ItemPhase::Over || input.len() != self.asking.pending {
            return self.stop(Action::Fail);
        }
        match self.asking.phase {
            ItemPhase::NameLength => {
                let n = be_decode(input);
                if n == 0 {
                    self.stop(Action::Finish)
                } else {
                    proof {
                        lemma_be_value_bound(input@);
                        lemma_pow256_values();
                    }
                    self.ask(ItemPhase::Name, Vec::new(), n as usize)
                }
            },
            ItemPhase::Name => {
                let kind = self.kind;
                if kind != ItemKind::Overlay && !bytes_are_utf8(input) {
                    return self.stop(Action::Fail);
                }
                self.name = copy_bytes(input);
                let send = vec![need_status(kind).to_u8()];
                assert(send@ =~= seq![need_code(kind)]);
                if kind == ItemKind::Source {
                    self.ask(ItemPhase::ContentsLength, send, 4)
                } else {
                    self.contents = Vec::new();
                    self.ask(ItemPhase::DataLength, send, 8)
                }
            },
            ItemPhase::ContentsLength | ItemPhase::DataLength => {
                let n = be_decode(input);
                if n > usize::MAX as u64 {
                    return self.stop(Action::Fail);
                }
                if self.asking.phase == ItemPhase::ContentsLength {
                    self.ask(ItemPhase::Contents, Vec::new(), n as usize)
                } else {
                    self.ask(ItemPhase::Data, Vec::new(), n as usize)
                }
            },
            ItemPhase::Contents => {
                self.contents = copy_bytes(input);
                self.ask(ItemPhase::DataLength, Vec::new(), 8)
            },
            ItemPhase::Data => {
                let item = ReceivedItem {
                    name: copy_bytes(self.name.as_slice()),
                    contents: copy_bytes(self.contents.as_slice()),
                    data: copy_bytes(input),
                };
                self.items.push(item);
                assert(self.items.deep_view() =~= old(self).model().items.push(
                    ItemModel { name: old(self).name@, contents: old(self).contents@, data: input@ },
                ));
                let send = vec![ready_status(self.kind).to_u8()];
                assert(send@ =~= seq![ready_code(self.kind)]);
                self.ask(ItemPhase::NameLength, send, 2)
            },
            ItemPhase::Over => self.stop(Action::Fail),
        }
    }
}

/// The bytes the server writes in `steps`, one after another.
pub open spec fn sent_by(steps: Seq<StepModel>) -> Seq<u8>
    decreases steps.len(),
{
    if steps.len() == 0 {
        Seq::empty()
    } else {
        let head = match steps[0] {
            StepModel::Send(b) => b,
            StepModel::Expect(_) => Seq::empty(),
        };
        head + sent_by(steps.drop_first())
    }
}

/// The bytes the server expects to read in `steps`, one after another.
pub open spec fn expected_by(steps: Seq<StepModel>) -> Seq<u8>
    decreases steps.len(),
{
    if steps.len() == 0 {
        Seq::empty()
    } else {
        let head = match steps[0] {
            StepModel::Send(_) => Seq::empty(),
            StepModel::Expect(c) => seq![c],
        };
        head + expected_by(steps.drop_first())
    }
}

/// The server's exchanges that hand the worker the items `xs` of `kind`,
/// then tell it that no more follow.
pub open spec fn items_exchange(kind: ItemKind, xs: Seq<ItemModel>) -> Seq<StepModel>
    decreases xs.len(),
{
    if xs.len() == 0 {
        finish_exchange_of(kind)
    } else {
        item_exchange(kind, xs[0]) + items_exchange(kind, xs.drop_first())
    }
}

/// An item the worker can receive as it was sent: it fits, its name is not
/// empty (an empty name ends the items), a source's or a dependency's name
/// is UTF-8, and only a source has a description.
pub open spec fn item_receivable(kind: ItemKind, x: ItemModel) -> bool {
    &&& item_fits(kind, x)
    &&& x.name.len() > 0
    &&& kind != ItemKind::Overlay ==> valid_utf8(x.name)
    &&& kind != ItemKind::Source ==> x.contents.len() == 0
    &&& x.contents.len() <= usize::MAX
    &&& x.data.len() <= usize::MAX
}

/// How many steps the worker takes to receive one item of `kind`.
pub open spec fn steps_per_item(kind: ItemKind) -> nat {
    if kind == ItemKind::Source {
        6
    } else {
        4
    }
}

/// The reader `m`, which has just answered `mv`, run on `stream`, the bytes
/// the server writes, for at most `fuel` steps, each handed the bytes it
/// asked for: its last state and move, the bytes it wrote, and what is left
/// of the stream.
pub open spec fn run_reader(m: ItemReaderModel, mv: Move, stream: Seq<u8>, fuel: nat) -> (
    ItemReaderModel,
    Move,
    Seq<u8>,
    Seq<u8>,
)
    decreases fuel,
{
    match mv {
        Move::Exchange(send, n) => {
            if fuel == 0 || stream.len() < n {
                (m, mv, send, stream)
            } else {
                let (m2, mv2) = item_step(m, stream.take(n as int));
                let r = run_reader(m2, mv2, stream.skip(n as int), (fuel - 1) as nat);
                (r.0, r.1, send + r.2, r.3)
            }
        },
        _ => (m, mv, Seq::empty(), stream),
    }
}

proof fn lemma_run_unfold(m: ItemReaderModel, send: Seq<u8>, n: nat, stream: Seq<u8>, fuel: nat)
    requires
        fuel > 0,
        stream.len() >= n,
    ensures
        run_reader(m, Move::Exchange(send, n), stream, fuel) == ({
            let (m2, mv2) = item_step(m, stream.take(n as int));
            let r = run_reader(m2, mv2, stream.skip(n as int), (fuel - 1) as nat);
            (r.0, r.1, send + r.2, r.3)
        }),
{
}

proof fn lemma_sent_by_append(a: Seq<StepModel>, b: Seq<StepModel>)
    ensures
        sent_by(a + b) == sent_by(a) + sent_by(b),
        expected_by(a + b) == expected_by(a) + expected_by(b),
    decreases a.len(),
{
    if a.len() == 0 {
        assert(a + b =~= b);
    } else {
        lemma_sent_by_append(a.drop_first(), b);
        assert((a + b).drop_first() =~= a.drop_first() + b);
        assert((a + b)[0] == a[0]);
    }
}

proof fn lemma_sent_by_one(x: StepModel)
    ensures
        sent_by(seq![x]) == match x {
            StepModel::Send(b) => b,
            StepModel::Expect(_) => Seq::<u8>::empty(),
        },
        expected_by(seq![x]) == match x {
            StepModel::Send(_) => Seq::<u8>::empty(),
            StepModel::Expect(c) => seq![c],
        },
{
    assert(seq![x].drop_first() =~= Seq::<StepModel>::empty());
    assert(sent_by(Seq::<StepModel>::empty()) =~= Seq::<u8>::empty());
    assert(expected_by(Seq::<StepModel>::empty()) =~= Seq::<u8>::empty());
    match x {
        StepModel::Send(b) => {
            assert(b + Seq::<u8>::empty() =~= b);
            assert(Seq::<u8>::empty() + Seq::<u8>::empty() =~= Seq::<u8>::empty());
        },
        StepModel::Expect(c) => {
            assert(Seq::<u8>::empty() + Seq::<u8>::empty() =~= Seq::<u8>::empty());
            assert(seq![c] + Seq::<u8>::empty() =~= seq![c]);
        },
    }
}

/// The bytes the server writes to hand over one item.
pub open spec fn item_bytes(kind: ItemKind, x: ItemModel) -> Seq<u8> {
    if kind == ItemKind::Source {
        frame_of(2, x.name) + frame_of(4, x.contents) + frame_of(8, x.data)
    } else {
        frame_of(2, x.name) + frame_of(8, x.data)
    }
}

proof fn lemma_item_exchange_bytes(kind: ItemKind, x: ItemModel)
    ensures
        sent_by(item_exchange(kind, x)) == item_bytes(kind, x),
        expected_by(item_exchange(kind, x)) == seq![ready_code(kind), need_code(kind)],
{
    let e = item_exchange(kind, x);
    let r = StepModel::Expect(ready_code(kind));
    let nd = StepModel::Expect(need_code(kind));
    let a = StepModel::Send(frame_of(2, x.name));
    let c = StepModel::Send(frame_of(4, x.contents));
    let d = StepModel::Send(frame_of(8, x.data));
    lemma_sent_by_one(r);
    lemma_sent_by_one(nd);
    lemma_sent_by_one(a);
    lemma_sent_by_one(c);
    lemma_sent_by_one(d);
    if kind == ItemKind::Source {
        assert(e =~= seq![r] + seq![a] + seq![nd] + seq![c] + seq![d]);
        lemma_sent_by_append(seq![r] + seq![a] + seq![nd] + seq![c], seq![d]);
        lemma_sent_by_append(seq![r] + seq![a] + seq![nd], seq![c]);
        lemma_sent_by_append(seq![r] + seq![a], seq![nd]);
        lemma_sent_by_append(seq![r], seq![a]);
        assert(sent_by(e) =~= item_bytes(kind, x));
        assert(expected_by(e) =~= seq![ready_code(kind), need_code(kind)]);
    } else {
        assert(e =~= seq![r] + seq![a] + seq![nd] + seq![d]);
        lemma_sent_by_append(seq![r] + seq![a] + seq![nd], seq![d]);
        lemma_sent_by_append(seq![r] + seq![a], seq![nd]);
        lemma_sent_by_append(seq![r], seq![a]);
        assert(sent_by(e) =~= item_bytes(kind, x));
        assert(expected_by(e) =~= seq![ready_code(kind), need_code(kind)]);
    }
}

/// The reader `m` after it received the item `x` and asked for the length
/// of the next name.
pub open spec fn after_item(m: ItemReaderModel, x: ItemModel) -> ItemReaderModel {
    ItemReaderModel {
        kind: m.kind,
        phase: ItemPhase::NameLength,
        pending: 2,
        name: x.name,
        contents: x.contents,
        items: m.items.push(x),
    }
}

proof fn lemma_frame_split(w: nat, body: Seq<u8>, tail: Seq<u8>)
    requires
        1 <= w <= 8,
        body.len() < pow256(w),
    ensures
        frame_of(w, body).len() == w + body.len(),
        (frame_of(w, body) + tail).take(w as int) == be_bytes(body.len(), w),
        (frame_of(w, body) + tail).skip(w as int) == body + tail,
        be_value(be_bytes(body.len(), w)) == body.len(),
        (body + tail).take(body.len() as int) == body,
        (body + tail).skip(body.len() as int) == tail,
{
    lemma_be_bytes_len(body.len(), w);
    lemma_be_round_trip(body.len(), w);
    assert((frame_of(w, body) + tail).take(w as int) =~= be_bytes(body.len(), w));
    assert((frame_of(w, body) + tail).skip(w as int) =~= body + tail);
    assert((body + tail).take(body.len() as int) =~= body);
    assert((body + tail).skip(body.len() as int) =~= tail);
}

proof fn lemma_step_length(m: ItemReaderModel, next: ItemPhase, w: nat, body: Seq<u8>, tail: Seq<u8>)
    requires
        w == 2 || w == 4 || w == 8,
        m.pending == w,
        m.phase == if w == 2 {
            ItemPhase::NameLength
        } else if w == 4 {
            ItemPhase::ContentsLength
        } else {
            ItemPhase::DataLength
        },
        next == if w == 2 {
            ItemPhase::Name
        } else if w == 4 {
            ItemPhase::Contents
        } else {
            ItemPhase::Data
        },
        body.len() < pow256(w),
        body.len() <= usize::MAX,
        w == 2 ==> body.len() > 0,
    ensures
        (frame_of(w, body) + tail).len() >= w,
        item_step(m, (frame_of(w, body) + tail).take(w as int)) == (
            asking(m, next, body.len()),
            Move::Exchange(Seq::<u8>::empty(), body.len()),
        ),
        (frame_of(w, body) + tail).skip(w as int) == body + tail,
{
    lemma_frame_split(w, body, tail);
    lemma_be_bytes_len(body.len(), w);
}

proof fn lemma_step_name(m: ItemReaderModel, x: ItemModel, tail: Seq<u8>)
    requires
        m.phase == ItemPhase::Name,
        m.pending == x.name.len(),
        item_receivable(m.kind, x),
    ensures
        (x.name + tail).len() >= x.name.len(),
        (x.name + tail).skip(x.name.len() as int) == tail,
        item_step(m, (x.name + tail).take(x.name.len() as int)) == if m.kind == ItemKind::Source {
            (
                ItemReaderModel { name: x.name, ..asking(m, ItemPhase::ContentsLength, 4) },
                Move::Exchange(seq![need_code(m.kind)], 4),
            )
        } else {
            (
                ItemReaderModel {
                    name: x.name,
                    contents: Seq::empty(),
                    ..asking(m, ItemPhase::DataLength, 8)
                },
                Move::Exchange(seq![need_code(m.kind)], 8),
            )
        },
{
    assert((x.name + tail).take(x.name.len() as int) =~= x.name);
    assert((x.name + tail).skip(x.name.len() as int) =~= tail);
}

proof fn lemma_step_contents(m: ItemReaderModel, x: ItemModel, tail: Seq<u8>)
    requires
        m.phase == ItemPhase::Contents,
        m.pending == x.contents.len(),
    ensures
        (x.contents + tail).len() >= x.contents.len(),
        (x.contents + tail).skip(x.contents.len() as int) == tail,
        item_step(m, (x.contents + tail).take(x.contents.len() as int)) == (
            ItemReaderModel { contents: x.contents, ..asking(m, ItemPhase::DataLength, 8) },
            Move::Exchange(Seq::<u8>::empty(), 8),
        ),
{
    assert((x.contents + tail).take(x.contents.len() as int) =~= x.contents);
    assert((x.contents + tail).skip(x.contents.len() as int) =~= tail);
}

proof fn lemma_step_data(m: ItemReaderModel, x: ItemModel, tail: Seq<u8>)
    requires
        m.phase == ItemPhase::Data,
        m.pending == x.data.len(),
        m.name == x.name,
        m.contents == x.contents,
    ensures
        (x.data + tail).len() >= x.data.len(),
        (x.data + tail).skip(x.data.len() as int) == tail,
        item_step(m, (x.data + tail).take(x.data.len() as int)) == (
            after_item(m, x),
            Move::Exchange(seq![ready_code(m.kind)], 2),
        ),
{
    assert((x.data + tail).take(x.data.len() as int) =~= x.data);
    assert((x.data + tail).skip(x.data.len() as int) =~= tail);
    let m6 = ItemReaderModel {
        items: m.items.push(ItemModel { name: m.name, contents: m.contents, data: x.data }),
        ..asking(m, ItemPhase::NameLength, 2)
    };
    assert(m6 =~= after_item(m, x));
}

proof fn lemma_run_source_rest(m2: ItemReaderModel, x: ItemModel, tail: Seq<u8>, f: nat)
    requires
        m2.kind == ItemKind::Source,
        m2.phase == ItemPhase::ContentsLength,
        m2.pending == 4,
        m2.name == x.name,
        item_receivable(m2.kind, x),
    ensures
        run_reader(
            m2,
            Move::Exchange(seq![need_code(m2.kind)], 4),
            frame_of(4, x.contents) + (frame_of(8, x.data) + tail),
            4 + f,
        ) == ({
            let r = run_reader(
                after_item(m2, x),
                Move::Exchange(seq![ready_code(m2.kind)], 2),
                tail,
                f,
            );
            (r.0, r.1, seq![need_code(m2.kind)] + r.2, r.3)
        }),
{
    let kind = m2.kind;
    lemma_pow256_values();
    let empty = Seq::<u8>::empty();
    let need = seq![need_code(kind)];
    let f8 = frame_of(8, x.data) + tail;
    let total = 4 + f;
    let r = run_reader(after_item(m2, x), Move::Exchange(seq![ready_code(kind)], 2), tail, f);
    lemma_step_length(m2, ItemPhase::Contents, 4, x.contents, f8);
    lemma_run_unfold(m2, need, 4, frame_of(4, x.contents) + f8, total);
    let m3 = asking(m2, ItemPhase::Contents, x.contents.len());
    lemma_step_contents(m3, x, f8);
    lemma_run_unfold(m3, empty, x.contents.len(), x.contents + f8, (total - 1) as nat);
    let m4 = ItemReaderModel { contents: x.contents, ..asking(m3, ItemPhase::DataLength, 8) };
    lemma_step_length(m4, ItemPhase::Data, 8, x.data, tail);
    lemma_run_unfold(m4, empty, 8, f8, (total - 2) as nat);
    let m5 = asking(m4, ItemPhase::Data, x.data.len());
    lemma_step_data(m5, x, tail);
    assert(after_item(m5, x) == after_item(m2, x));
    lemma_run_unfold(m5, empty, x.data.len(), x.data + tail, (total - 3) as nat);
    assert(need + (empty + (empty + (empty + r.2))) =~= need + r.2);
}

proof fn lemma_run_source_item(m: ItemReaderModel, send0: Seq<u8>, x: ItemModel, tail: Seq<u8>, f: nat)
    requires
        m.kind == ItemKind::Source,
        m.phase == ItemPhase::NameLength,
        m.pending == 2,
        item_receivable(m.kind, x),
    ensures
        run_reader(m, Move::Exchange(send0, 2), item_bytes(m.kind, x) + tail, 6 + f) == ({
            let r = run_reader(
                after_item(m, x),
                Move::Exchange(seq![ready_code(m.kind)], 2),
                tail,
                f,
            );
            (r.0, r.1, send0 + seq![need_code(m.kind)] + r.2, r.3)
        }),
{
    let kind = m.kind;
    lemma_pow256_values();
    let empty = Seq::<u8>::empty();
    let f8 = frame_of(8, x.data) + tail;
    let after_name = frame_of(4, x.contents) + f8;
    let s0 = item_bytes(kind, x) + tail;
    assert(s0 =~= frame_of(2, x.name) + after_name);
    let total = 6 + f;
    lemma_step_length(m, ItemPhase::Name, 2, x.name, after_name);
    lemma_run_unfold(m, send0, 2, s0, total);
    let m1 = asking(m, ItemPhase::Name, x.name.len());
    lemma_step_name(m1, x, after_name);
    lemma_run_unfold(m1, empty, x.name.len(), x.name + after_name, (total - 1) as nat);
    let m2 = ItemReaderModel { name: x.name, ..asking(m1, ItemPhase::ContentsLength, 4) };
    lemma_run_source_rest(m2, x, tail, f);
    assert(after_item(m2, x) == after_item(m, x));
    let r = run_reader(after_item(m, x), Move::Exchange(seq![ready_code(kind)], 2), tail, f);
    assert(send0 + (empty + (seq![need_code(kind)] + r.2)) =~= send0 + seq![need_code(kind)] + r.2);
}

#[verifier::spinoff_prover]
proof fn lemma_run_plain_item(m: ItemReaderModel, send0: Seq<u8>, x: ItemModel, tail: Seq<u8>, f: nat)
    requires
        m.kind != ItemKind::Source,
        m.phase == ItemPhase::NameLength,
        m.pending == 2,
        item_receivable(m.kind, x),
    ensures
        run_reader(m, Move::Exchange(send0, 2), item_bytes(m.kind, x) + tail, 4 + f) == ({
            let r = run_reader(
                after_item(m, x),
                Move::Exchange(seq![ready_code(m.kind)], 2),
                tail,
                f,
            );
            (r.0, r.1, send0 + seq![need_code(m.kind)] + r.2, r.3)
        }),
{
    let kind = m.kind;
    lemma_pow256_values();
    let empty = Seq::<u8>::empty();
    let need = seq![need_code(kind)];
    let f8 = frame_of(8, x.data) + tail;
    let s0 = item_bytes(kind, x) + tail;
    assert(s0 =~= frame_of(2, x.name) + f8);
    let total = 4 + f;
    let r = run_reader(after_item(m, x), Move::Exchange(seq![ready_code(kind)], 2), tail, f);
    lemma_step_length(m, ItemPhase::Name, 2, x.name, f8);
    lemma_run_unfold(m, send0, 2, s0, total);
    let m1 = asking(m, ItemPhase::Name, x.name.len());
    lemma_step_name(m1, x, f8);
    lemma_run_unfold(m1, empty, x.name.len(), x.name + f8, (total - 1) as nat);
    let m2 = ItemReaderModel {
        name: x.name,
        contents: Seq::empty(),
        ..asking(m1, ItemPhase::DataLength, 8)
    };
    lemma_step_length(m2, ItemPhase::Data, 8, x.data, tail);
    lemma_run_unfold(m2, need, 8, f8, (total - 2) as nat);
    let m3 = asking(m2, ItemPhase::Data, x.data.len());
    assert(x.contents =~= empty);
    lemma_step_data(m3, x, tail);
    assert(after_item(m3, x) == after_item(m, x));
    lemma_run_unfold(m3, empty, x.data.len(), x.data + tail, (total - 3) as nat);
    assert(send0 + (empty + (need + (empty + r.2))) =~= send0 + need + r.2);
}

proof fn lemma_run_item(m: ItemReaderModel, send0: Seq<u8>, x: ItemModel, tail: Seq<u8>, f: nat)
    requires
        m.phase == ItemPhase::NameLength,
        m.pending == 2,
        item_receivable(m.kind, x),
    ensures
        run_reader(
            m,
            Move::Exchange(send0, 2),
            item_bytes(m.kind, x) + tail,
            steps_per_item(m.kind) + f,
        ) == ({
            let r = run_reader(
                after_item(m, x),
                Move::Exchange(seq![ready_code(m.kind)], 2),
                tail,
                f,
            );
            (r.0, r.1, send0 + seq![need_code(m.kind)] + r.2, r.3)
        }),
{
    if m.kind == ItemKind::Source {
        lemma_run_source_item(m, send0, x, tail, f);
    } else {
        lemma_run_plain_item(m, send0, x, tail, f);
    }
}

/// What the worker announces while it receives `k` items, after its first
/// announcement: for each item, that it needs the rest of it, then that it
/// is ready for the next.
pub open spec fn announcements(kind: ItemKind, k: nat) -> Seq<u8>
    decreases k,
{
    if k == 0 {
        Seq::empty()
    } else {
        seq![need_code(kind), ready_code(kind)] + announcements(kind, (k - 1) as nat)
    }
}

proof fn lemma_finish_bytes(kind: ItemKind)
    ensures
        sent_by(finish_exchange_of(kind)) == seq![0u8, 0u8],
        expected_by(finish_exchange_of(kind)) == seq![ready_code(kind)],
{
    let a = StepModel::Expect(ready_code(kind));
    let b = StepModel::Send(seq![0u8, 0u8]);
    lemma_sent_by_one(a);
    lemma_sent_by_one(b);
    assert(finish_exchange_of(kind) =~= seq![a] + seq![b]);
    lemma_sent_by_append(seq![a], seq![b]);
    assert(sent_by(finish_exchange_of(kind)) =~= seq![0u8, 0u8]);
    assert(expected_by(finish_exchange_of(kind)) =~= seq![ready_code(kind)]);
}

proof fn lemma_expected_items(kind: ItemKind, xs: Seq<ItemModel>)
    ensures
        expected_by(items_exchange(kind, xs)) == seq![ready_code(kind)] + announcements(
            kind,
            xs.len(),
        ),
    decreases xs.len(),
{
    if xs.len() == 0 {
        lemma_finish_bytes(kind);
        assert(seq![ready_code(kind)] + Seq::<u8>::empty() =~= seq![ready_code(kind)]);
    } else {
        lemma_expected_items(kind, xs.drop_first());
        lemma_item_exchange_bytes(kind, xs[0]);
        lemma_sent_by_append(item_exchange(kind, xs[0]), items_exchange(kind, xs.drop_first()));
        assert(seq![ready_code(kind), need_code(kind)] + (seq![ready_code(kind)] + announcements(
            kind,
            (xs.len() - 1) as nat,
        )) =~= seq![ready_code(kind)] + announcements(kind, xs.len()));
    }
}

proof fn lemma_run_items(m: ItemReaderModel, send0: Seq<u8>, xs: Seq<ItemModel>, rest: Seq<u8>)
    requires
        m.phase == ItemPhase::NameLength,
        m.pending == 2,
        forall|i: int| 0 <= i < xs.len() ==> item_receivable(m.kind, #[trigger] xs[i]),
    ensures
        ({
            let r = run_reader(
                m,
                Move::Exchange(send0, 2),
                sent_by(items_exchange(m.kind, xs)) + rest,
                steps_per_item(m.kind) * xs.len() + 1,
            );
            &&& r.1 == Move::Finish
            &&& r.0.items == m.items + xs
            &&& r.2 == send0 + announcements(m.kind, xs.len())
            &&& r.3 == rest
        }),
    decreases xs.len(),
{
    let kind = m.kind;
    if xs.len() == 0 {
        lemma_finish_bytes(kind);
        let stream = seq![0u8, 0u8] + rest;
        lemma_run_unfold(m, send0, 2, stream, 1);
        assert(stream.take(2) =~= seq![0u8, 0u8]);
        assert(stream.skip(2) =~= rest);
        assert(be_value(seq![0u8, 0u8]) == 0) by {
            reveal_with_fuel(be_value, 3);
            assert(seq![0u8, 0u8].drop_last() =~= seq![0u8]);
            assert(seq![0u8].drop_last() =~= Seq::<u8>::empty());
        }
        assert(steps_per_item(kind) * xs.len() + 1 == 1);
        assert(m.items + xs =~= m.items);
        assert(send0 + Seq::<u8>::empty() =~= send0);
    } else {
        let x = xs[0];
        let more = xs.drop_first();
        let per = steps_per_item(kind);
        lemma_item_exchange_bytes(kind, x);
        lemma_sent_by_append(item_exchange(kind, x), items_exchange(kind, more));
        let tail = sent_by(items_exchange(kind, more)) + rest;
        assert(sent_by(items_exchange(kind, xs)) + rest =~= item_bytes(kind, x) + tail);
        assert(per * xs.len() + 1 == per + (per * more.len() + 1)) by (nonlinear_arith)
            requires
                more.len() + 1 == xs.len(),
        ;
        assert(item_receivable(kind, xs[0]));
        lemma_run_item(m, send0, x, tail, per * more.len() + 1);
        let m2 = after_item(m, x);
        assert forall|i: int| 0 <= i < more.len() implies item_receivable(m2.kind, #[trigger] more[i]) by {
            assert(more[i] == xs[i + 1]);
        }
        lemma_run_items(m2, seq![ready_code(kind)], more, rest);
        assert(m.items.push(x) + more =~= m.items + xs);
        assert(send0 + seq![need_code(kind)] + (seq![ready_code(kind)] + announcements(
            kind,
            more.len(),
        )) =~= send0 + announcements(kind, xs.len()));
    }
}

/// The items the server hands over are the items the worker receives, in
/// order, and each byte the worker announces is the one the server expects
/// then: a reader run from its start on the bytes the server writes for
/// `xs` (followed by anything) ends the items having received exactly `xs`,
/// having written exactly the bytes the server reads, and having consumed
/// exactly the server's bytes.
pub proof fn law_items_received_as_sent(kind: ItemKind, xs: Seq<ItemModel>, rest: Seq<u8>)
    requires
        forall|i: int| 0 <= i < xs.len() ==> item_receivable(kind, #[trigger] xs[i]),
    ensures
        ({
            let r = run_reader(
                item_reader_start(kind),
                Move::Exchange(seq![ready_code(kind)], 2),
                sent_by(items_exchange(kind, xs)) + rest,
                steps_per_item(kind) * xs.len() + 1,
            );
            &&& r.1 == Move::Finish
            &&& r.0.items == xs
            &&& r.2 == expected_by(items_exchange(kind, xs))
            &&& r.3 == rest
        }),
{
    lemma_run_items(item_reader_start(kind), seq![ready_code(kind)], xs, rest);
    lemma_expected_items(kind, xs);
    assert(item_reader_start(kind).items + xs =~= xs);
}

/// What reading a worker's report of a complete build from the start of
/// `buf` gives: the build output it holds. The report is the state byte,
/// the 64 bytes of the output's hash (which the server does not use), and
/// the output in a frame with an 8-byte length.
pub open spec fn completion_step(buf: Seq<u8>) -> Progress<Seq<u8>> {
    if buf.len() < 1 {
        Progress::NeedMore(1)
    } else if buf[0] != status_code(WorkerStatus::BuildComplete) {
        Progress::Invalid
    } else if buf.len() < 65 {
        Progress::NeedMore((65 - buf.len()) as usize)
    } else {
        match frame_step(8, buf.skip(65)) {
            Progress::NeedMore(k) => Progress::NeedMore(k),
            Progress::Invalid => Progress::Invalid,
            Progress::Done(a, u) => Progress::Done(a, (65 + u) as usize),
        }
    }
}

/// Reads a worker's report of a complete build from the start of `buf`,
/// whose first byte, already read, announces the complete build.
pub fn decode_completion(buf: &[u8]) -> (res: Progress<Vec<u8>>)
    requires
        buf@.len() >= 1,
        buf@[0] == status_code(WorkerStatus::BuildComplete),
    ensures
        match (res, completion_step(buf@)) {
            (Progress::NeedMore(a), Progress::NeedMore(b)) => a == b,
            (Progress::Done(d, u), Progress::Done(e, v)) => d@ == e && u == v,
            (Progress::Invalid, Progress::Invalid) => true,
            _ => false,
        },
{
    let n = buf.len();
    if n < 65 {
        return Progress::NeedMore(65 - n);
    }
    match decode_frame_at(8, buf, 65) {
        Progress::NeedMore(k) => Progress::NeedMore(k),
        Progress::Invalid => Progress::Invalid,
        Progress::Done(a, u) => {
            assert(frame_step(8, buf@.skip(65)) matches Progress::Done(e, v) && v <= n - 65) by {
                let t = buf@.skip(65);
                if t.len() >= 8 {
                    let k = be_value(t.take(8));
                    if k <= usize::MAX && t.len() >= 8 + k {
                        assert(8 + k <= t.len());
                    }
                }
            }
            Progress::Done(a, 65 + u)
        },
    }
}

/// A worker's report of a complete build is read back as the output it
/// reported, consuming exactly the report, whatever follows it.
pub proof fn law_completion_read_back(hash: Seq<char>, archive: Seq<u8>, rest: Seq<u8>)
    requires
        encode_utf8(hash).len() == 64,
        73 + archive.len() <= usize::MAX,
    ensures
        completion_step(archive_message(hash, archive) + rest) == Progress::Done(
            archive,
            (73 + archive.len()) as usize,
        ),
{
    lemma_pow256_values();
    lemma_frame_split(8, archive, rest);
    law_frame_round_trip(8, archive, rest);
    let buf = archive_message(hash, archive) + rest;
    assert(buf[0] == status_code(WorkerStatus::BuildComplete));
    assert(buf.skip(65) =~= frame_of(8, archive) + rest);
}

/// The exchanges that hand over the items `xs` of `kind`, one after another,
/// without the end.
pub open spec fn item_steps(kind: ItemKind, xs: Seq<ItemModel>) -> Seq<StepModel>
    decreases xs.len(),
{
    if xs.len() == 0 {
        Seq::empty()
    } else {
        item_steps(kind, xs.drop_last()) + item_exchange(kind, xs.last())
    }
}

proof fn lemma_item_steps_front(kind: ItemKind, xs: Seq<ItemModel>)
    requires
        xs.len() > 0,
    ensures
        item_steps(kind, xs) == item_exchange(kind, xs[0]) + item_steps(kind, xs.drop_first()),
    decreases xs.len(),
{
    if xs.len() == 1 {
        assert(xs.drop_last() =~= Seq::<ItemModel>::empty());
        assert(xs.drop_first() =~= Seq::<ItemModel>::empty());
        assert(xs.last() == xs[0]);
        assert(Seq::<StepModel>::empty() + item_exchange(kind, xs[0]) =~= item_exchange(kind, xs[0])
            + Seq::<StepModel>::empty());
    } else {
        lemma_item_steps_front(kind, xs.drop_last());
        assert(xs.drop_last().drop_first() =~= xs.drop_first().drop_last());
        assert(xs.drop_first().last() == xs.last());
        assert(xs.drop_last()[0] == xs[0]);
        assert(item_steps(kind, xs.drop_first()) == item_steps(kind, xs.drop_first().drop_last())
            + item_exchange(kind, xs.drop_first().last()));
        assert(item_exchange(kind, xs[0]) + item_steps(kind, xs.drop_last().drop_first())
            + item_exchange(kind, xs.last()) =~= item_exchange(kind, xs[0]) + (item_steps(
            kind,
            xs.drop_first().drop_last(),
        ) + item_exchange(kind, xs.drop_first().last())));
    }
}

proof fn lemma_items_exchange_split(kind: ItemKind, xs: Seq<ItemModel>)
    ensures
        items_exchange(kind, xs) == item_steps(kind, xs) + finish_exchange_of(kind),
    decreases xs.len(),
{
    if xs.len() == 0 {
        assert(Seq::<StepModel>::empty() + finish_exchange_of(kind) =~= finish_exchange_of(kind));
    } else {
        lemma_items_exchange_split(kind, xs.drop_first());
        lemma_item_steps_front(kind, xs);
        assert(item_exchange(kind, xs[0]) + (item_steps(kind, xs.drop_first()) + finish_exchange_of(
            kind,
        )) =~= item_exchange(kind, xs[0]) + item_steps(kind, xs.drop_first()) + finish_exchange_of(
            kind,
        ));
    }
}

fn append_steps(out: &mut Vec<Step>, more: Vec<Step>)
    ensures
        final(out).deep_view() == old(out).deep_view() + more.deep_view(),
{
    let ghost start = out.deep_view();
    let ghost all = more.deep_view();
    let total = more.len();
    assert(all.len() == total);
    let mut rest = more;
    let mut k: usize = 0;
    assert(all.take(0) =~= Seq::<StepModel>::empty());
    assert(start + all.take(0) =~= start);
    assert(rest.deep_view() =~= all.skip(0));
    while rest.len() > 0
        invariant
            k <= all.len(),
            out.deep_view() == start + all.take(k as int),
            rest.deep_view() == all.skip(k as int),
            rest@.len() == all.len() - k,
            all.len() <= usize::MAX,
        decreases rest.len(),
    {
        let ghost before = rest.deep_view();
        let ghost out_before = out.deep_view();
        assert(before.len() == rest@.len());
        assert(before[0] == all[k as int]);
        let x = rest.remove(0);
        assert(x.deep_view() == before[0]);
        assert(rest.deep_view() =~= before.drop_first());
        out.push(x);
        assert(out.deep_view() =~= out_before.push(x.deep_view()));
        assert(all.take(k + 1) =~= all.take(k as int).push(all[k as int]));
        assert(all.skip(k + 1) =~= all.skip(k as int).drop_first());
        k = k + 1;
    }
    assert(all.take(k as int) =~= all);
}

/// Sources as handed over: each named by its digest, with its description
/// and its bytes.
pub open spec fn source_items(v: Seq<(String, Vec<u8>, Vec<u8>)>) -> Seq<ItemModel> {
    v.map_values(|t: (String, Vec<u8>, Vec<u8>)| source_item(t.0@, t.1@, t.2@))
}

/// Dependencies as handed over: each named by its hash, with the bytes of
/// its build output.
pub open spec fn dep_items(v: Seq<(String, Vec<u8>)>) -> Seq<ItemModel> {
    v.map_values(|t: (String, Vec<u8>)| dep_item(t.0@, t.1@))
}

/// Overlay files as handed over: each named by its path, with its bytes.
pub open spec fn overlay_items(v: Seq<(Vec<u8>, Vec<u8>)>) -> Seq<ItemModel> {
    v.map_values(|t: (Vec<u8>, Vec<u8>)| overlay_item(t.0@, t.1@))
}

/// Every item can be handed over.
pub open spec fn all_fit(kind: ItemKind, xs: Seq<ItemModel>) -> bool {
    forall|i: int| 0 <= i < xs.len() ==> item_fits(kind, #[trigger] xs[i])
}

/// The whole exchange of a build, as the server makes it: the recipe, the
/// sources, the build outputs of the dependencies, the overlay files, and
/// the environment.
pub open spec fn build_exchange_of(
    recipe: Seq<u8>,
    sources: Seq<ItemModel>,
    deps: Seq<ItemModel>,
    overlays: Seq<ItemModel>,
    envs: Seq<(Seq<char>, Seq<char>)>,
) -> Seq<StepModel> {
    recipe_exchange_of(recipe) + items_exchange(ItemKind::Source, sources) + items_exchange(
        ItemKind::Dep,
        deps,
    ) + items_exchange(ItemKind::Overlay, overlays) + envs_exchange_of(envs)
}

/// The whole exchange of a build of the recipe encoded as `recipe`, with
/// everything its build needs; every item must fit, and so must the
/// environment.
pub fn build_exchange(
    recipe: &[u8],
    sources: &Vec<(String, Vec<u8>, Vec<u8>)>,
    deps: &Vec<(String, Vec<u8>)>,
    overlays: &Vec<(Vec<u8>, Vec<u8>)>,
    envs: &Vec<(String, String)>,
) -> (res: Vec<Step>)
    requires
        all_fit(ItemKind::Source, source_items(sources@)),
        all_fit(ItemKind::Dep, dep_items(deps@)),
        all_fit(ItemKind::Overlay, overlay_items(overlays@)),
        names_in_order(envs.deep_view()),
        envs_fit(envs.deep_view()),
    ensures
        res.deep_view() == build_exchange_of(
            recipe@,
            source_items(sources@),
            dep_items(deps@),
            overlay_items(overlays@),
            envs.deep_view(),
        ),
{
    let mut out = recipe_exchange(recipe);
    let ghost s0 = out.deep_view();

    let ghost xs = source_items(sources@);
    let n = sources.len();
    assert(xs.take(0) =~= Seq::<ItemModel>::empty());
    assert(s0 + item_steps(ItemKind::Source, xs.take(0)) =~= s0);
    for i in 0..n
        invariant
            n == sources@.len(),
            xs == source_items(sources@),
            all_fit(ItemKind::Source, xs),
            out.deep_view() == s0 + item_steps(ItemKind::Source, xs.take(i as int)),
    {
        assert(xs[i as int] == source_item(sources@[i as int].0@, sources@[i as int].1@, sources@[i as int].2@));
        assert(item_fits(ItemKind::Source, xs[i as int]));
        let ex = source_exchange(sources[i].0.as_str(), sources[i].1.as_slice(), sources[i].2.as_slice());
        append_steps(&mut out, ex);
        assert(xs.take(i + 1).drop_last() =~= xs.take(i as int));
        assert(xs.take(i + 1).last() == xs[i as int]);
    }
    assert(xs.take(n as int) =~= xs);
    append_steps(&mut out, finish_exchange(ItemKind::Source));
    proof {
        lemma_items_exchange_split(ItemKind::Source, xs);
    }
    let ghost s1 = out.deep_view();
    assert(s1 =~= s0 + items_exchange(ItemKind::Source, xs));

    let ghost ds = dep_items(deps@);
    let m = deps.len();
    assert(ds.take(0) =~= Seq::<ItemModel>::empty());
    assert(s1 + item_steps(ItemKind::Dep, ds.take(0)) =~= s1);
    for i in 0..m
        invariant
            m == deps@.len(),
            ds == dep_items(deps@),
            all_fit(ItemKind::Dep, ds),
            out.deep_view() == s1 + item_steps(ItemKind::Dep, ds.take(i as int)),
    {
        assert(ds[i as int] == dep_item(deps@[i as int].0@, deps@[i as int].1@));
        assert(item_fits(ItemKind::Dep, ds[i as int]));
        let ex = dep_exchange(deps[i].0.as_str(), deps[i].1.as_slice());
        append_steps(&mut out, ex);
        assert(ds.take(i + 1).drop_last() =~= ds.take(i as int));
        assert(ds.take(i + 1).last() == ds[i as int]);
    }
    assert(ds.take(m as int) =~= ds);
    append_steps(&mut out, finish_exchange(ItemKind::Dep));
    proof {
        lemma_items_exchange_split(ItemKind::Dep, ds);
    }
    let ghost s2 = out.deep_view();
    assert(s2 =~= s1 + items_exchange(ItemKind::Dep, ds));

    let ghost os = overlay_items(overlays@);
    let k = overlays.len();
    assert(os.take(0) =~= Seq::<ItemModel>::empty());
    assert(s2 + item_steps(ItemKind::Overlay, os.take(0)) =~= s2);
    for i in 0..k
        invariant
            k == overlays@.len(),
            os == overlay_items(overlays@),
            all_fit(ItemKind::Overlay, os),
            out.deep_view() == s2 + item_steps(ItemKind::Overlay, os.take(i as int)),
    {
        assert(os[i as int] == overlay_item(overlays@[i as int].0@, overlays@[i as int].1@));
        assert(item_fits(ItemKind::Overlay, os[i as int]));
        let ex = overlay_exchange(overlays[i].0.as_slice(), overlays[i].1.as_slice());
        append_steps(&mut out, ex);
        assert(os.take(i + 1).drop_last() =~= os.take(i as int));
        assert(os.take(i + 1).last() == os[i as int]);
    }
    assert(os.take(k as int) =~= os);
    append_steps(&mut out, finish_exchange(ItemKind::Overlay));
    proof {
        lemma_items_exchange_split(ItemKind::Overlay, os);
    }
    let ghost s3 = out.deep_view();
    assert(s3 =~= s2 + items_exchange(ItemKind::Overlay, os));

    append_steps(&mut out, envs_exchange(envs));
    assert(out.deep_view() =~= build_exchange_of(recipe@, xs, ds, os, envs.deep_view()));
    out
}

/// The environment a build is handed: the entries of `envs`, a later entry
/// replacing an earlier one with the same name, listed in increasing order
/// of name, each name once.
pub fn env_map(envs: &Vec<(String, String)>) -> (res: Vec<(String, String)>)
    ensures
        lists_in_order(res.deep_view(), named_map_of(envs.deep_view())),
{
    ordered_by_name(envs)
}

/// The items `items` as a map from name to item, a later item replacing an
/// earlier one with the same name.
pub open spec fn items_map_of(items: Seq<ItemModel>) -> Map<Seq<u8>, ItemModel>
    decreases items.len(),
{
    if items.len() == 0 {
        Map::empty()
    } else {
        items_map_of(items.drop_last()).insert(items.last().name, items.last())
    }
}

/// `out` lists the map `m` from name to item, each name once.
pub open spec fn lists_each_name_once(out: Seq<ItemModel>, m: Map<Seq<u8>, ItemModel>) -> bool {
    &&& forall|i: int, j: int| 0 <= i < j < out.len() ==> #[trigger] out[i].name != #[trigger] out[j].name
    &&& forall|i: int|
        0 <= i < out.len() ==> m.contains_key((#[trigger] out[i]).name) && m[out[i].name] == out[i]
    &&& forall|k: Seq<u8>|
        #[trigger] m.contains_key(k) ==> exists|i: int| 0 <= i < out.len() && (#[trigger] out[i]).name == k
}

fn same_bytes(a: &[u8], b: &[u8]) -> (res: bool)
    ensures
        res == (a@ == b@),
{
    if a.len() != b.len() {
        return false;
    }
    let n = a.len();
    for i in 0..n
        invariant
            n == a@.len(),
            n == b@.len(),
            forall|j: int| 0 <= j < i ==> a@[j] == b@[j],
    {
        if a[i] != b[i] {
            return false;
        }
    }
    assert(a@ =~= b@);
    true
}

fn put_item(out: &mut Vec<ReceivedItem>, item: ReceivedItem, Ghost(m): Ghost<Map<Seq<u8>, ItemModel>>)
    requires
        lists_each_name_once(old(out).deep_view(), m),
    ensures
        lists_each_name_once(final(out).deep_view(), m.insert(item.deep_view().name, item.deep_view())),
{
    let ghost ov = out.deep_view();
    let ghost x = item.deep_view();
    let ghost m2 = m.insert(x.name, x);
    let n = out.len();
    let mut p: usize = 0;
    while p < n && !same_bytes(out[p].name.as_slice(), item.name.as_slice())
        invariant
            p <= n,
            n == out@.len(),
            ov == out.deep_view(),
            x == item.deep_view(),
            forall|j: int| 0 <= j < p ==> (#[trigger] ov[j]).name != x.name,
        decreases n - p,
    {
        assert(ov[p as int] == out@[p as int].deep_view());
        p = p + 1;
    }
    if p < n {
        assert(ov[p as int] == out@[p as int].deep_view());
        out.set(p, item);
        let ghost nv = out.deep_view();
        assert(nv =~= ov.update(p as int, x));
        assert forall|i: int| 0 <= i < nv.len() && i != p implies (#[trigger] nv[i]).name != x.name by {
            assert(nv[i] == ov[i]);
            assert(ov[i].name != ov[p as int].name || i == p);
        }
        assert forall|i: int, j: int| 0 <= i < j < nv.len() implies #[trigger] nv[i].name
            != #[trigger] nv[j].name by {
            if i != p && j != p {
                assert(nv[i] == ov[i] && nv[j] == ov[j]);
            }
        }
        assert forall|i: int| 0 <= i < nv.len() implies m2.contains_key((#[trigger] nv[i]).name)
            && m2[nv[i].name] == nv[i] by {
            if i != p {
                assert(nv[i] == ov[i]);
            }
        }
        assert forall|k: Seq<u8>| #[trigger] m2.contains_key(k) implies exists|i: int|
            0 <= i < nv.len() && (#[trigger] nv[i]).name == k by {
            if k == x.name {
                assert(nv[p as int].name == k);
            } else {
                let i = choose|i: int| 0 <= i < ov.len() && (#[trigger] ov[i]).name == k;
                assert(nv[i] == ov[i]);
            }
        }
    } else {
        out.push(item);
        let ghost nv = out.deep_view();
        assert(nv =~= ov.push(x));
        assert forall|i: int, j: int| 0 <= i < j < nv.len() implies #[trigger] nv[i].name
            != #[trigger] nv[j].name by {
            assert(nv[i] == ov[i]);
            if j < ov.len() {
                assert(nv[j] == ov[j]);
            }
        }
        assert forall|i: int| 0 <= i < nv.len() implies m2.contains_key((#[trigger] nv[i]).name)
            && m2[nv[i].name] == nv[i] by {
            if i < ov.len() {
                assert(nv[i] == ov[i]);
            }
        }
        assert forall|k: Seq<u8>| #[trigger] m2.contains_key(k) implies exists|i: int|
            0 <= i < nv.len() && (#[trigger] nv[i]).name == k by {
            if k == x.name {
                assert(nv[ov.len() as int].name == k);
            } else {
                let i = choose|i: int| 0 <= i < ov.len() && (#[trigger] ov[i]).name == k;
                assert(nv[i] == ov[i]);
            }
        }
    }
}

/// The received items by name, a later item replacing an earlier one with
/// the same name, each name once.
pub fn items_by_name(items: &Vec<ReceivedItem>) -> (res: Vec<ReceivedItem>)
    ensures
        lists_each_name_once(res.deep_view(), items_map_of(items.deep_view())),
{
    let ghost iv = items.deep_view();
    let mut out: Vec<ReceivedItem> = Vec::new();
    let n = items.len();
    assert(iv.take(0) =~= Seq::<ItemModel>::empty());
    assert(out.deep_view() =~= Seq::<ItemModel>::empty());
    for i in 0..n
        invariant
            n == items@.len(),
            iv == items.deep_view(),
            lists_each_name_once(out.deep_view(), items_map_of(iv.take(i as int))),
    {
        assert(iv[i as int] == items@[i as int].deep_view());
        let item = ReceivedItem {
            name: items[i].name.duplicate(),
            contents: items[i].contents.duplicate(),
            data: items[i].data.duplicate(),
        };
        assert(item.name.deep_view() =~= item.name@ && items@[i as int].name.deep_view()
            =~= items@[i as int].name@);
        assert(item.contents.deep_view() =~= item.contents@ && items@[i as int].contents.deep_view()
            =~= items@[i as int].contents@);
        assert(item.data.deep_view() =~= item.data@ && items@[i as int].data.deep_view()
            =~= items@[i as int].data@);
        assert(item.deep_view() =~= iv[i as int]);
        put_item(&mut out, item, Ghost(items_map_of(iv.take(i as int))));
        assert(iv.take(i + 1).drop_last() =~= iv.take(i as int));
        assert(iv.take(i + 1).last() == iv[i as int]);
    }
    assert(iv.take(n as int) =~= iv);
    out
}

/// Handed over items become the same map on both sides: the map from name
/// to item, a later item replacing an earlier one with the same name, that
/// the worker builds of what it received is the one built of the items the
/// server sent, so it holds one item per distinct name sent.
pub proof fn law_received_map_as_sent(kind: ItemKind, xs: Seq<ItemModel>, rest: Seq<u8>)
    requires
        forall|i: int| 0 <= i < xs.len() ==> item_receivable(kind, #[trigger] xs[i]),
    ensures
        ({
            let r = run_reader(
                item_reader_start(kind),
                Move::Exchange(seq![ready_code(kind)], 2),
                sent_by(items_exchange(kind, xs)) + rest,
                steps_per_item(kind) * xs.len() + 1,
            );
            &&& items_map_of(r.0.items) == items_map_of(xs)
            &&& items_map_of(xs).dom() == xs.map_values(|x: ItemModel| x.name).to_set()
        }),
{
    law_items_received_as_sent(kind, xs, rest);
    lemma_items_map_names(xs);
}

proof fn lemma_items_map_names(xs: Seq<ItemModel>)
    ensures
        items_map_of(xs).dom() == xs.map_values(|x: ItemModel| x.name).to_set(),
    decreases xs.len(),
{
    if xs.len() > 0 {
        let ys = xs.drop_last();
        lemma_items_map_names(ys);
        let f = |x: ItemModel| x.name;
        assert(xs.map_values(f) =~= ys.map_values(f).push(xs.last().name));
        assert(ys.map_values(f).push(xs.last().name).to_set() =~= ys.map_values(f).to_set().insert(
            xs.last().name,
        )) by {
            ys.map_values(f).lemma_push_to_set_commute(xs.last().name);
        }
        assert(items_map_of(xs).dom() =~= items_map_of(ys).dom().insert(xs.last().name));
    } else {
        assert(items_map_of(xs).dom() =~= Set::<Seq<u8>>::empty());
        assert(xs.map_values(|x: ItemModel| x.name).to_set() =~= Set::<Seq<u8>>::empty());
    }
}

} // verus!

//! The conversation between the server and a worker: status bytes, and
//! length-prefixed frames of bytes with big-endian lengths.

use vstd::prelude::*;
use vstd::utf8::{decode_utf8, encode_utf8, valid_utf8};

use crate::foreign::string_from_utf8;

verus! {

/// What a worker reports while it builds.
#[derive(Debug)]
pub enum StatusUpdate {
    CommandRun(Vec<String>),
    CommandOut(String),
    CommandError(String),
    CommandDone(i32),
    Done,
}

/// The state a worker announces, as one byte.
#[derive(Debug, Clone, Copy, PartialEq, Eq, Structural)]
pub enum WorkerStatus {
    ReadyForWork,
    ReadyForSource,
    ReadyForOverlay,
    HaveSource,
    NeedSource,
    ReadyForDep,
    HaveDep,
    NeedDep,
    HaveOverlay,
    NeedOverlay,
    ReadyForEnvs,
    BuildComplete,
}

/// The byte that stands for each worker state.
pub open spec fn status_code(s: WorkerStatus) -> u8 {
    match s {
        WorkerStatus::ReadyForWork => 0,
        WorkerStatus::ReadyForSource => 1,
        WorkerStatus::ReadyForOverlay => 2,
        WorkerStatus::HaveSource => 3,
        WorkerStatus::NeedSource => 4,
        WorkerStatus::ReadyForDep => 5,
        WorkerStatus::HaveDep => 6,
        WorkerStatus::NeedDep => 7,
        WorkerStatus::HaveOverlay => 8,
        WorkerStatus::NeedOverlay => 9,
        WorkerStatus::ReadyForEnvs => 10,
        WorkerStatus::BuildComplete => 11,
    }
}

impl WorkerStatus {
    /// The byte that stands for this state.
    pub fn to_u8(self) -> (res: u8)
        ensures
            res == status_code(self),
    {
        match self {
            WorkerStatus::ReadyForWork => 0,
            WorkerStatus::ReadyForSource => 1,
            WorkerStatus::ReadyForOverlay => 2,
            WorkerStatus::HaveSource => 3,
            WorkerStatus::NeedSource => 4,
            WorkerStatus::ReadyForDep => 5,
            WorkerStatus::HaveDep => 6,
            WorkerStatus::NeedDep => 7,
            WorkerStatus::HaveOverlay => 8,
            WorkerStatus::NeedOverlay => 9,
            WorkerStatus::ReadyForEnvs => 10,
            WorkerStatus::BuildComplete => 11,
        }
    }

    /// The state that `code` stands for, if any.
    pub fn try_from_u8(code: u8) -> (res: Option<WorkerStatus>)
        ensures
            match res {
                Some(s) => status_code(s) == code,
                None => code > 11,
            },
    {
        match code {
            0 => Some(WorkerStatus::ReadyForWork),
            1 => Some(WorkerStatus::ReadyForSource),
            2 => Some(WorkerStatus::ReadyForOverlay),
            3 => Some(WorkerStatus::HaveSource),
            4 => Some(WorkerStatus::NeedSource),
            5 => Some(WorkerStatus::ReadyForDep),
            6 => Some(WorkerStatus::HaveDep),
            7 => Some(WorkerStatus::NeedDep),
            8 => Some(WorkerStatus::HaveOverlay),
            9 => Some(WorkerStatus::NeedOverlay),
            10 => Some(WorkerStatus::ReadyForEnvs),
            11 => Some(WorkerStatus::BuildComplete),
            _ => None,
        }
    }

    /// Whether the byte `code` announces this state.
    pub fn is_announced_by(self, code: u8) -> (res: bool)
        ensures
            res == (code == status_code(self)),
    {
        self.to_u8() == code
    }
}

/// Each worker state is announced by its position in the list of states:
/// ready for work 0, ready for a source 1, ready for an overlay 2, have a
/// source 3, need a source 4, ready for a dependency 5, have a dependency 6,
/// need a dependency 7, have an overlay 8, need an overlay 9, ready for the
/// environment 10, build complete 11; and every byte up to 11 announces one.
pub proof fn law_status_code_table(code: u8)
    ensures
        status_code(WorkerStatus::ReadyForWork) == 0,
        status_code(WorkerStatus::ReadyForSource) == 1,
        status_code(WorkerStatus::ReadyForOverlay) == 2,
        status_code(WorkerStatus::HaveSource) == 3,
        status_code(WorkerStatus::NeedSource) == 4,
        status_code(WorkerStatus::ReadyForDep) == 5,
        status_code(WorkerStatus::HaveDep) == 6,
        status_code(WorkerStatus::NeedDep) == 7,
        status_code(WorkerStatus::HaveOverlay) == 8,
        status_code(WorkerStatus::NeedOverlay) == 9,
        status_code(WorkerStatus::ReadyForEnvs) == 10,
        status_code(WorkerStatus::BuildComplete) == 11,
        code <= 11 ==> exists|s: WorkerStatus| #[trigger] status_code(s) == code,
{
    if code <= 11 {
        if code == 0 { assert(status_code(WorkerStatus::ReadyForWork) == code); }
        else if code == 1 { assert(status_code(WorkerStatus::ReadyForSource) == code); }
        else if code == 2 { assert(status_code(WorkerStatus::ReadyForOverlay) == code); }
        else if code == 3 { assert(status_code(WorkerStatus::HaveSource) == code); }
        else if code == 4 { assert(status_code(WorkerStatus::NeedSource) == code); }
        else if code == 5 { assert(status_code(WorkerStatus::ReadyForDep) == code); }
        else if code == 6 { assert(status_code(WorkerStatus::HaveDep) == code); }
        else if code == 7 { assert(status_code(WorkerStatus::NeedDep) == code); }
        else if code == 8 { assert(status_code(WorkerStatus::HaveOverlay) == code); }
        else if code == 9 { assert(status_code(WorkerStatus::NeedOverlay) == code); }
        else if code == 10 { assert(status_code(WorkerStatus::ReadyForEnvs) == code); }
        else { assert(status_code(WorkerStatus::BuildComplete) == code); }
    }
}

/// Distinct states have distinct bytes.
pub proof fn law_status_codes_distinct(a: WorkerStatus, b: WorkerStatus)
    ensures
        status_code(a) == status_code(b) ==> a == b,
        status_code(a) <= 11,
{
}

/// `256` to the power `w`: how many values a `w`-byte length can hold.
pub open spec fn pow256(w: nat) -> nat
    decreases w,
{
    if w == 0 {
        1
    } else {
        256 * pow256((w - 1) as nat)
    }
}

/// `n` as `w` big-endian bytes (its low `w` bytes).
pub open spec fn be_bytes(n: nat, w: nat) -> Seq<u8>
    decreases w,
{
    if w == 0 {
        Seq::empty()
    } else {
        be_bytes(n / 256, (w - 1) as nat).push((n % 256) as u8)
    }
}

/// The number that big-endian bytes `b` hold.
pub open spec fn be_value(b: Seq<u8>) -> nat
    decreases b.len(),
{
    if b.len() == 0 {
        0
    } else {
        be_value(b.drop_last()) * 256 + b.last() as nat
    }
}

pub proof fn lemma_be_bytes_len(n: nat, w: nat)
    ensures
        be_bytes(n, w).len() == w,
    decreases w,
{
    if w > 0 {
        lemma_be_bytes_len(n / 256, (w - 1) as nat);
    }
}

/// Reading back big-endian bytes gives the number written, when it fits.
pub proof fn lemma_be_round_trip(n: nat, w: nat)
    requires
        n < pow256(w),
    ensures
        be_value(be_bytes(n, w)) == n,
    decreases w,
{
    if w > 0 {
        vstd::arithmetic::div_mod::lemma_fundamental_div_mod(n as int, 256);
        assert(n / 256 < pow256((w - 1) as nat));
        lemma_be_round_trip(n / 256, (w - 1) as nat);
        assert(be_bytes(n, w).drop_last() =~= be_bytes(n / 256, (w - 1) as nat));
    }
}

/// What `b` bytes hold is below `256` to the power of their number.
pub proof fn lemma_be_value_bound(b: Seq<u8>)
    ensures
        be_value(b) < pow256(b.len()),
    decreases b.len(),
{
    if b.len() > 0 {
        lemma_be_value_bound(b.drop_last());
    }
}

pub(crate) fn be_encode(n: u64, w: usize) -> (res: Vec<u8>)
    ensures
        res@ == be_bytes(n as nat, w as nat),
    decreases w,
{
    if w == 0 {
        Vec::new()
    } else {
        let mut v = be_encode(n / 256, w - 1);
        v.push((n % 256) as u8);
        v
    }
}

pub(crate) fn be_decode(b: &[u8]) -> (res: u64)
    requires
        b@.len() <= 8,
    ensures
        res == be_value(b@),
{
    let mut acc: u64 = 0;
    let n = b.len();
    proof {
        reveal_with_fuel(pow256, 9);
        assert(b@.take(0) =~= Seq::<u8>::empty());
    }
    for i in 0..n
        invariant
            n == b@.len(),
            n <= 8,
            acc == be_value(b@.take(i as int)),
            pow256(8) == 0x1_0000_0000_0000_0000,
    {
        proof {
            lemma_be_value_bound(b@.take(i as int));
            lemma_pow256_mono(i as nat, 7);
            assert(b@.take(i + 1).drop_last() =~= b@.take(i as int));
        }
        acc = acc * 256 + b[i] as u64;
    }
    assert(b@.take(n as int) =~= b@);
    acc
}

pub proof fn lemma_pow256_mono(a: nat, b: nat)
    requires
        a <= b,
    ensures
        pow256(a) <= pow256(b),
    decreases b,
{
    if a < b {
        lemma_pow256_mono(a, (b - 1) as nat);
    }
}

/// How far reading from a buffer got: so many more bytes are needed, or a
/// value was read from the buffer's first so many bytes, or the bytes can
/// never be read.
#[derive(Debug, Clone, PartialEq, Eq)]
pub enum Progress<T> {
    NeedMore(usize),
    Done(T, usize),
    Invalid,
}

/// `data` behind its length, as a `w`-byte big-endian number.
pub open spec fn frame_of(w: nat, data: Seq<u8>) -> Seq<u8> {
    be_bytes(data.len(), w) + data
}

/// What reading a frame with a `w`-byte length from the start of `buf` gives.
pub open spec fn frame_step(w: nat, buf: Seq<u8>) -> Progress<Seq<u8>> {
    if buf.len() < w {
        Progress::NeedMore((w - buf.len()) as usize)
    } else {
        let n = be_value(buf.take(w as int));
        if n > usize::MAX {
            Progress::Invalid
        } else if buf.len() < w + n {
            Progress::NeedMore((w + n - buf.len()) as usize)
        } else {
            Progress::Done(buf.subrange(w as int, (w + n) as int), (w + n) as usize)
        }
    }
}

/// The largest length a `w`-byte length prefix can hold, plus one.
fn frame_limit(w: usize) -> (res: u64)
    requires
        w < 8,
    ensures
        res == pow256(w as nat),
{
    let mut l: u64 = 1;
    let mut i: usize = 0;
    proof {
        reveal_with_fuel(pow256, 9);
    }
    while i < w
        invariant
            i <= w < 8,
            l == pow256(i as nat),
            pow256(7) == 0x1_0000_0000_0000_00,
        decreases w - i,
    {
        proof {
            lemma_pow256_mono(i as nat, 6);
            reveal_with_fuel(pow256, 8);
        }
        l = l * 256;
        i = i + 1;
    }
    l
}

/// `data` behind its length as a `w`-byte big-endian number; nothing when
/// the length does not fit in `w` bytes.
pub fn encode_frame(w: usize, data: &[u8]) -> (res: Option<Vec<u8>>)
    requires
        w <= 8,
    ensures
        match res {
            Some(f) => data@.len() < pow256(w as nat) && f@ == frame_of(w as nat, data@),
            None => data@.len() >= pow256(w as nat),
        },
{
    let len = data.len();
    if w < 8 {
        let limit = frame_limit(w);
        if len as u64 >= limit {
            return None;
        }
    } else {
        proof {
            reveal_with_fuel(pow256, 9);
            lemma_pow256_mono(8, w as nat);
        }
    }
    let mut out = be_encode(len as u64, w);
    let n = data.len();
    let ghost header = out@;
    for i in 0..n
        invariant
            n == data@.len(),
            out@ == header + data@.take(i as int),
    {
        out.push(data[i]);
        assert(data@.take(i + 1) =~= data@.take(i as int).push(data@[i as int]));
    }
    assert(data@.take(n as int) =~= data@);
    Some(out)
}

/// Reads a frame with a `w`-byte big-endian length from `buf`, starting at `pos`.
pub fn decode_frame_at(w: usize, buf: &[u8], pos: usize) -> (res: Progress<Vec<u8>>)
    requires
        1 <= w <= 8,
        pos <= buf@.len(),
    ensures
        match (res, frame_step(w as nat, buf@.skip(pos as int))) {
            (Progress::NeedMore(a), Progress::NeedMore(b)) => a == b,
            (Progress::Done(d, u), Progress::Done(e, v)) => d@ == e && u == v,
            (Progress::Invalid, Progress::Invalid) => true,
            _ => false,
        },
{
    let ghost t = buf@.skip(pos as int);
    let len = buf.len() - pos;
    if len < w {
        return Progress::NeedMore(w - len);
    }
    let mut head: Vec<u8> = Vec::new();
    let total0 = buf.len();
    for i in 0..w
        invariant
            total0 == buf@.len(),
            pos + w <= total0,
            t == buf@.skip(pos as int),
            head@ == t.take(i as int),
    {
        head.push(buf[pos + i]);
        assert(t.take(i + 1) =~= t.take(i as int).push(t[i as int]));
    }
    let n64 = be_decode(head.as_slice());
    if n64 > usize::MAX as u64 {
        return Progress::Invalid;
    }
    let n = n64 as usize;
    if len - w < n {
        return Progress::NeedMore(n - (len - w));
    }
    let mut body: Vec<u8> = Vec::new();
    let total = buf.len();
    for i in 0..n
        invariant
            total == buf@.len(),
            pos + w + n <= total,
            t == buf@.skip(pos as int),
            body@ == t.subrange(w as int, w + i),
    {
        body.push(buf[pos + w + i]);
        assert(t.subrange(w as int, w + i + 1) =~= t.subrange(w as int, w + i).push(t[w + i]));
    }
    Progress::Done(body, w + n)
}

/// Reads a frame with a `w`-byte big-endian length from the start of `buf`.
pub fn decode_frame(w: usize, buf: &[u8]) -> (res: Progress<Vec<u8>>)
    requires
        1 <= w <= 8,
    ensures
        match (res, frame_step(w as nat, buf@)) {
            (Progress::NeedMore(a), Progress::NeedMore(b)) => a == b,
            (Progress::Done(d, u), Progress::Done(e, v)) => d@ == e && u == v,
            (Progress::Invalid, Progress::Invalid) => true,
            _ => false,
        },
{
    assert(buf@.skip(0) =~= buf@);
    decode_frame_at(w, buf, 0)
}

/// Reading a frame written with the same length width gives back its
/// bytes and how many bytes it took, whatever follows it.
pub proof fn law_frame_round_trip(w: nat, data: Seq<u8>, rest: Seq<u8>)
    requires
        1 <= w <= 8,
        data.len() < pow256(w),
        w + data.len() <= usize::MAX,
    ensures
        frame_step(w, frame_of(w, data) + rest) == Progress::Done(data, (w + data.len()) as usize),
{
    lemma_be_bytes_len(data.len(), w);
    lemma_be_round_trip(data.len(), w);
    let buf = frame_of(w, data) + rest;
    assert(buf.take(w as int) =~= be_bytes(data.len(), w));
    assert(buf.subrange(w as int, (w + data.len()) as int) =~= data);
}

/// Reading a frame from a buffer that holds only part of it asks for more
/// bytes, never more than the rest of the frame.
pub proof fn law_frame_prefix_needs_more(w: nat, data: Seq<u8>, prefix_len: nat)
    requires
        1 <= w <= 8,
        data.len() < pow256(w),
        w + data.len() <= usize::MAX,
        prefix_len < w + data.len(),
    ensures
        frame_step(w, frame_of(w, data).take(prefix_len as int)) matches Progress::NeedMore(k)
            && k > 0 && prefix_len + k <= w + data.len(),
{
    lemma_be_bytes_len(data.len(), w);
    lemma_be_round_trip(data.len(), w);
    let p = frame_of(w, data).take(prefix_len as int);
    if prefix_len >= w {
        assert(p.take(w as int) =~= be_bytes(data.len(), w));
    }
}

/// Reads a name sent as UTF-8 bytes.
pub fn decode_name(bytes: Vec<u8>) -> (res: Option<String>)
    ensures
        res is Some <==> valid_utf8(bytes@),
        res matches Some(s) ==> s@ == decode_utf8(bytes@),
{
    string_from_utf8(bytes)
}

/// The message a worker sends when its build is complete: the state byte,
/// the 64 bytes of the output's hash, and the output in a frame with an
/// 8-byte length.
pub open spec fn archive_message(hash: Seq<char>, archive: Seq<u8>) -> Seq<u8> {
    seq![status_code(WorkerStatus::BuildComplete)] + encode_utf8(hash) + frame_of(8, archive)
}

/// Writes the message announcing a complete build with output `archive`
/// named `hash`, whose UTF-8 encoding takes 64 bytes.
pub fn encode_archive_message(hash: &str, archive: &[u8]) -> (res: Vec<u8>)
    requires
        encode_utf8(hash@).len() == 64,
    ensures
        res@ == archive_message(hash@, archive@),
{
    let mut out: Vec<u8> = Vec::new();
    out.push(WorkerStatus::BuildComplete.to_u8());
    let h = hash.as_bytes();
    let hn = h.len();
    for i in 0..hn
        invariant
            hn == h@.len(),
            h@ == encode_utf8(hash@),
            out@ == seq![status_code(WorkerStatus::BuildComplete)] + h@.take(i as int),
    {
        out.push(h[i]);
        assert(h@.take(i + 1) =~= h@.take(i as int).push(h@[i as int]));
    }
    assert(h@.take(hn as int) =~= h@);
    let alen = archive.len();
    let frame = match encode_frame(8, archive) {
        Some(f) => f,
        None => {
            proof {
                reveal_with_fuel(pow256, 9);
                assert(alen <= usize::MAX);
                assert(pow256(8) == 0x1_0000_0000_0000_0000);
            }
            assert(false);
            Vec::new()
        },
    };
    let ghost before = out@;
    let fnn = frame.len();
    for i in 0..fnn
        invariant
            fnn == frame@.len(),
            out@ == before + frame@.take(i as int),
    {
        out.push(frame[i]);
        assert(frame@.take(i + 1) =~= frame@.take(i as int).push(frame@[i as int]));
    }
    assert(frame@.take(fnn as int) =~= frame@);
    out
}

/// Appends `data` to `out`.
pub fn append_bytes(out: &mut Vec<u8>, data: &[u8])
    ensures
        final(out)@ == old(out)@ + data@,
{
    let ghost start = out@;
    let n = data.len();
    for i in 0..n
        invariant
            n == data@.len(),
            out@ == start + data@.take(i as int),
    {
        out.push(data[i]);
        assert(data@.take(i + 1) =~= data@.take(i as int).push(data@[i as int]));
    }
    assert(data@.take(n as int) =~= data@);
}

/// One environment entry on the wire: its key, then its value, each as
/// UTF-8 in a frame with a 2-byte length.
pub open spec fn env_entry_bytes(entry: (Seq<char>, Seq<char>)) -> Seq<u8> {
    frame_of(2, encode_utf8(entry.0)) + frame_of(2, encode_utf8(entry.1))
}

/// Environment entries on the wire, one after another.
pub open spec fn env_entries_bytes(envs: Seq<(Seq<char>, Seq<char>)>) -> Seq<u8>
    decreases envs.len(),
{
    if envs.len() == 0 {
        Seq::empty()
    } else {
        env_entry_bytes(envs[0]) + env_entries_bytes(envs.drop_first())
    }
}

/// An environment on the wire: the number of entries as 2 big-endian bytes,
/// then the entries.
pub open spec fn envs_block(envs: Seq<(Seq<char>, Seq<char>)>) -> Seq<u8> {
    be_bytes(envs.len(), 2) + env_entries_bytes(envs)
}

/// An environment can be sent: fewer than 65536 entries, each key and value
/// shorter than 65536 bytes in UTF-8.
pub open spec fn envs_fit(envs: Seq<(Seq<char>, Seq<char>)>) -> bool {
    &&& envs.len() < 65536
    &&& forall|i: int|
        0 <= i < envs.len() ==> encode_utf8((#[trigger] envs[i]).0).len() < 65536 && encode_utf8(
            envs[i].1,
        ).len() < 65536
}

proof fn lemma_env_entries_push(envs: Seq<(Seq<char>, Seq<char>)>, x: (Seq<char>, Seq<char>))
    ensures
        env_entries_bytes(envs.push(x)) == env_entries_bytes(envs) + env_entry_bytes(x),
    decreases envs.len(),
{
    if envs.len() == 0 {
        assert(envs.push(x).drop_first() =~= Seq::<(Seq<char>, Seq<char>)>::empty());
        assert(envs.push(x)[0] == x);
        assert(env_entries_bytes(envs.push(x).drop_first()) =~= Seq::<u8>::empty());
        assert(env_entries_bytes(envs) =~= Seq::<u8>::empty());
        assert(env_entries_bytes(envs.push(x)) =~= env_entry_bytes(x));
    } else {
        lemma_env_entries_push(envs.drop_first(), x);
        assert(envs.push(x).drop_first() =~= envs.drop_first().push(x));
        assert(envs.push(x)[0] == envs[0]);
        assert(env_entries_bytes(envs.push(x)) =~= env_entries_bytes(envs) + env_entry_bytes(x));
    }
}

/// Writes an environment for a worker: nothing when it cannot be sent.
pub fn encode_envs(envs: &Vec<(String, String)>) -> (res: Option<Vec<u8>>)
    ensures
        match res {
            Some(b) => envs_fit(envs.deep_view()) && b@ == envs_block(envs.deep_view()),
            None => !envs_fit(envs.deep_view()),
        },
{
    let ghost ev = envs.deep_view();
    let n = envs.len();
    if n >= 65536 {
        return None;
    }
    let mut out = be_encode(n as u64, 2);
    let ghost header = out@;
    assert(ev.take(0) =~= Seq::<(Seq<char>, Seq<char>)>::empty());
    proof {
        reveal_with_fuel(pow256, 3);
    }
    for i in 0..n
        invariant
            n == envs@.len(),
            n < 65536,
            ev == envs.deep_view(),
            header == be_bytes(n as nat, 2),
            out@ == header + env_entries_bytes(ev.take(i as int)),
            forall|j: int|
                0 <= j < i ==> encode_utf8((#[trigger] ev[j]).0).len() < 65536 && encode_utf8(
                    ev[j].1,
                ).len() < 65536,
            pow256(2) == 65536,
    {
        assert(ev[i as int] == envs@[i as int].deep_view());
        let key = encode_frame(2, envs[i].0.as_str().as_bytes());
        let value = encode_frame(2, envs[i].1.as_str().as_bytes());
        match (key, value) {
            (Some(kf), Some(vf)) => {
                let ghost before = out@;
                append_bytes(&mut out, kf.as_slice());
                append_bytes(&mut out, vf.as_slice());
                proof {
                    lemma_env_entries_push(ev.take(i as int), ev[i as int]);
                    assert(ev.take(i + 1) =~= ev.take(i as int).push(ev[i as int]));
                    assert(out@ =~= header + env_entries_bytes(ev.take(i + 1)));
                }
            },
            _ => {
                assert(!(encode_utf8(ev[i as int].0).len() < 65536 && encode_utf8(ev[i as int].1).len() < 65536));
                return None;
            },
        }
    }
    assert(ev.take(n as int) =~= ev);
    Some(out)
}

/// What reading one environment entry from `buf` at `pos` gives.
pub open spec fn entry_step(buf: Seq<u8>, pos: int) -> Progress<(Seq<char>, Seq<char>)> {
    match frame_step(2, buf.skip(pos)) {
        Progress::NeedMore(k) => Progress::NeedMore(k),
        Progress::Invalid => Progress::Invalid,
        Progress::Done(kb, u1) => if !valid_utf8(kb) {
            Progress::Invalid
        } else {
            match frame_step(2, buf.skip(pos + u1)) {
                Progress::NeedMore(k) => Progress::NeedMore(k),
                Progress::Invalid => Progress::Invalid,
                Progress::Done(vb, u2) => if !valid_utf8(vb) {
                    Progress::Invalid
                } else {
                    Progress::Done((decode_utf8(kb), decode_utf8(vb)), (u1 + u2) as usize)
                },
            }
        },
    }
}

/// `r` with the entries `acc` read before it put in front.
pub open spec fn after_entries(
    acc: Seq<(Seq<char>, Seq<char>)>,
    r: Progress<Seq<(Seq<char>, Seq<char>)>>,
) -> Progress<Seq<(Seq<char>, Seq<char>)>> {
    match r {
        Progress::Done(rest, end) => Progress::Done(acc + rest, end),
        Progress::NeedMore(k) => Progress::NeedMore(k),
        Progress::Invalid => Progress::Invalid,
    }
}

/// What reading `remaining` environment entries from `buf` at `pos` gives;
/// a completed read reports where it ended.
pub open spec fn entries_step(buf: Seq<u8>, pos: int, remaining: nat) -> Progress<
    Seq<(Seq<char>, Seq<char>)>,
>
    decreases remaining,
{
    if remaining == 0 {
        Progress::Done(Seq::empty(), pos as usize)
    } else {
        match entry_step(buf, pos) {
            Progress::NeedMore(k) => Progress::NeedMore(k),
            Progress::Invalid => Progress::Invalid,
            Progress::Done(e, u) => after_entries(
                seq![e],
                entries_step(buf, pos + u, (remaining - 1) as nat),
            ),
        }
    }
}

/// What reading an environment from the start of `buf` gives.
pub open spec fn envs_step(buf: Seq<u8>) -> Progress<Seq<(Seq<char>, Seq<char>)>> {
    if buf.len() < 2 {
        Progress::NeedMore((2 - buf.len()) as usize)
    } else {
        entries_step(buf, 2, be_value(buf.take(2)))
    }
}

/// Reads an environment sent by `encode_envs` from the start of `buf`.
pub fn decode_envs(buf: &[u8]) -> (res: Progress<Vec<(String, String)>>)
    ensures
        match (res, envs_step(buf@)) {
            (Progress::NeedMore(a), Progress::NeedMore(b)) => a == b,
            (Progress::Done(d, u), Progress::Done(e, v)) => d.deep_view() == e && u == v,
            (Progress::Invalid, Progress::Invalid) => true,
            _ => false,
        },
{
    let total = buf.len();
    if total < 2 {
        return Progress::NeedMore(2 - total);
    }
    let head = vec![buf[0], buf[1]];
    assert(head@ =~= buf@.take(2));
    let count = be_decode(head.as_slice());
    let mut out: Vec<(String, String)> = Vec::new();
    let mut pos: usize = 2;
    let mut i: u64 = 0;
    assert(after_entries(out.deep_view(), entries_step(buf@, 2, count as nat)) =~= entries_step(buf@, 2, count as nat)) by {
        assert(out.deep_view() =~= Seq::<(Seq<char>, Seq<char>)>::empty());
        match entries_step(buf@, 2, count as nat) {
            Progress::Done(rest, end) => {
                assert(Seq::<(Seq<char>, Seq<char>)>::empty() + rest =~= rest);
            },
            _ => {},
        }
    }
    while i < count
        invariant
            total == buf@.len(),
            i <= count,
            2 <= pos <= total,
            envs_step(buf@) == after_entries(out.deep_view(), entries_step(buf@, pos as int, (count - i) as nat)),
        decreases count - i,
    {
        let ghost rem = (count - i) as nat;
        let kb = match decode_frame_at(2, buf, pos) {
            Progress::NeedMore(k) => {
                return Progress::NeedMore(k);
            },
            Progress::Invalid => {
                return Progress::Invalid;
            },
            Progress::Done(kb, u1) => (kb, u1),
        };
        let (kbytes, u1) = kb;
        let ghost kview = kbytes@;
        let key = match string_from_utf8(kbytes) {
            None => {
                return Progress::Invalid;
            },
            Some(key) => key,
        };
        assert(pos + u1 <= total) by {
            assert(u1 <= buf@.skip(pos as int).len());
        }
        let vb = match decode_frame_at(2, buf, pos + u1) {
            Progress::NeedMore(k) => {
                assert(buf@.skip(pos + u1) =~= buf@.skip(pos as int + u1 as int));
                return Progress::NeedMore(k);
            },
            Progress::Invalid => {
                return Progress::Invalid;
            },
            Progress::Done(vb, u2) => (vb, u2),
        };
        let (vbytes, u2) = vb;
        let value = match string_from_utf8(vbytes) {
            None => {
                return Progress::Invalid;
            },
            Some(value) => value,
        };
        let ghost e = (key@, value@);
        let ghost before_out = out.deep_view();
        out.push((key, value));
        assert(out.deep_view() =~= before_out.push(e));
        assert(pos + u1 + u2 <= total) by {
            assert(u2 <= buf@.skip(pos + u1).len());
        }
        proof {
            let later = entries_step(buf@, pos + u1 + u2, (rem - 1) as nat);
            assert(entry_step(buf@, pos as int) == Progress::Done(e, (u1 + u2) as usize));
            assert(entries_step(buf@, pos as int, rem) == after_entries(seq![e], later));
            match later {
                Progress::Done(rest, end) => {
                    assert(before_out + (seq![e] + rest) =~= before_out.push(e) + rest);
                },
                _ => {},
            }
        }
        pos = pos + u1 + u2;
        i = i + 1;
    }
    assert(out.deep_view() + Seq::<(Seq<char>, Seq<char>)>::empty() =~= out.deep_view());
    Progress::Done(out, pos)
}

proof fn lemma_entry_read(pre: Seq<u8>, e: (Seq<char>, Seq<char>), after: Seq<u8>)
    requires
        encode_utf8(e.0).len() < 65536,
        encode_utf8(e.1).len() < 65536,
        pre.len() + env_entry_bytes(e).len() + after.len() <= usize::MAX,
    ensures
        entry_step(pre + env_entry_bytes(e) + after, pre.len() as int) == Progress::Done(
            e,
            env_entry_bytes(e).len() as usize,
        ),
{
    reveal_with_fuel(pow256, 3);
    let buf = pre + env_entry_bytes(e) + after;
    let kb = encode_utf8(e.0);
    let vb = encode_utf8(e.1);
    vstd::utf8::encode_utf8_valid_utf8(e.0);
    vstd::utf8::encode_utf8_valid_utf8(e.1);
    vstd::utf8::encode_utf8_decode_utf8(e.0);
    vstd::utf8::encode_utf8_decode_utf8(e.1);
    lemma_be_bytes_len(kb.len(), 2);
    lemma_be_bytes_len(vb.len(), 2);
    let p = pre.len() as int;
    assert(buf.skip(p) =~= frame_of(2, kb) + (frame_of(2, vb) + after));
    law_frame_round_trip(2, kb, frame_of(2, vb) + after);
    let u1 = 2 + kb.len();
    assert(buf.skip(p + u1) =~= frame_of(2, vb) + after);
    law_frame_round_trip(2, vb, after);
}

#[verifier::spinoff_prover]
proof fn lemma_entries_round_trip(
    pre: Seq<u8>,
    envs: Seq<(Seq<char>, Seq<char>)>,
    rest: Seq<u8>,
)
    requires
        forall|i: int|
            0 <= i < envs.len() ==> encode_utf8((#[trigger] envs[i]).0).len() < 65536 && encode_utf8(
                envs[i].1,
            ).len() < 65536,
        pre.len() + env_entries_bytes(envs).len() + rest.len() <= usize::MAX,
    ensures
        entries_step(pre + env_entries_bytes(envs) + rest, pre.len() as int, envs.len())
            == Progress::Done(envs, (pre.len() + env_entries_bytes(envs).len()) as usize),
    decreases envs.len(),
{
    let buf = pre + env_entries_bytes(envs) + rest;
    if envs.len() == 0 {
        assert(env_entries_bytes(envs).len() == 0);
        assert(envs =~= Seq::<(Seq<char>, Seq<char>)>::empty());
    } else {
        let e = envs[0];
        let tail = env_entries_bytes(envs.drop_first());
        assert(encode_utf8(envs[0].0).len() < 65536);
        assert(buf =~= pre + env_entry_bytes(e) + (tail + rest));
        lemma_entry_read(pre, e, tail + rest);
        let pre2 = pre + env_entry_bytes(e);
        assert(buf =~= pre2 + tail + rest);
        assert forall|i: int| 0 <= i < envs.drop_first().len() implies encode_utf8((#[trigger] envs.drop_first()[i]).0).len() < 65536 && encode_utf8(
                envs.drop_first()[i].1,
            ).len() < 65536 by {
            assert(envs.drop_first()[i] == envs[i + 1]);
        }
        lemma_entries_round_trip(pre2, envs.drop_first(), rest);
        assert(seq![e] + envs.drop_first() =~= envs);
    }
}

/// Reading an environment that `encode_envs` wrote gives it back, with the
/// number of bytes it took, whatever follows it.
pub proof fn law_envs_round_trip(envs: Seq<(Seq<char>, Seq<char>)>, rest: Seq<u8>)
    requires
        envs_fit(envs),
        envs_block(envs).len() + rest.len() <= usize::MAX,
    ensures
        envs_step(envs_block(envs) + rest) == Progress::Done(envs, envs_block(envs).len() as usize),
{
    reveal_with_fuel(pow256, 3);
    let header = be_bytes(envs.len(), 2);
    lemma_be_bytes_len(envs.len(), 2);
    lemma_be_round_trip(envs.len(), 2);
    let buf = envs_block(envs) + rest;
    assert(buf.take(2) =~= header);
    assert(buf =~= header + env_entries_bytes(envs) + rest);
    lemma_entries_round_trip(header, envs, rest);
}

} // verus!

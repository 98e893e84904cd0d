//! The bus transactions of the controller: what the driver asks the pins, the SPI
//! transfers and the delays to do, in order.
//!
//! The driver's methods compute such a list; the code that owns the hardware carries it
//! out and stops at the first step that fails.

use vstd::prelude::*;

use crate::frame::{color_high, color_low, high_byte, low_byte};

verus! {

/// One step of a bus transaction.
#[derive(Debug)]
pub enum BusOp {
    /// Drive the chip-select line high (`true`, deselected) or low (`false`, selected).
    SetCs(bool),
    /// Drive the data/command line high (`true`, data) or low (`false`, command).
    SetDc(bool),
    /// Drive the reset line high or low.
    SetRst(bool),
    /// Drive the backlight line high (on) or low (off).
    SetBlk(bool),
    /// Send these bytes in one transfer.
    Write(Vec<u8>),
    /// Wait this many microseconds.
    DelayUs(u32),
}

/// A bus step as the contracts see it.
pub enum Op {
    SetCs(bool),
    SetDc(bool),
    SetRst(bool),
    SetBlk(bool),
    Write(Seq<u8>),
    DelayUs(u32),
}

impl View for BusOp {
    type V = Op;

    open spec fn view(&self) -> Op {
        match self {
            BusOp::SetCs(b) => Op::SetCs(*b),
            BusOp::SetDc(b) => Op::SetDc(*b),
            BusOp::SetRst(b) => Op::SetRst(*b),
            BusOp::SetBlk(b) => Op::SetBlk(*b),
            BusOp::Write(v) => Op::Write(v@),
            BusOp::DelayUs(d) => Op::DelayUs(*d),
        }
    }
}

/// The steps of a list of bus operations.
pub open spec fn ops_view(ops: Seq<BusOp>) -> Seq<Op> {
    ops.map_values(|o: BusOp| o@)
}

/// The sizes of the transfer buffers the driver owns; every transfer uses one of them.
pub open spec fn transfer_size_ok(n: int) -> bool {
    n == 1 || n == 2 || n == 3 || n == 4 || n == 8 || n == 240
}

/// Every transfer of the steps fits one of the driver's transfer buffers.
pub open spec fn writes_fit(ops: Seq<Op>) -> bool {
    forall|i: int| 0 <= i < ops.len() ==> (#[trigger] ops[i] matches Op::Write(b) ==> transfer_size_ok(b.len() as int))
}

/// All bytes the steps send, in order.
pub open spec fn transmitted(ops: Seq<Op>) -> Seq<u8>
    decreases ops.len(),
{
    if ops.len() == 0 {
        seq![]
    } else {
        transmitted(ops.drop_last()) + match ops.last() {
            Op::Write(b) => b,
            _ => seq![],
        }
    }
}

/// The transfers that carry `d`: eight bytes at a time, then four, then what is left.
pub open spec fn data_writes(d: Seq<u8>) -> Seq<Op>
    decreases d.len(),
{
    if d.len() >= 8 {
        seq![Op::Write(d.take(8))] + data_writes(d.skip(8))
    } else if d.len() >= 4 {
        seq![Op::Write(d.take(4))] + data_writes(d.skip(4))
    } else if d.len() > 0 {
        seq![Op::Write(d)]
    } else {
        seq![]
    }
}

/// Sending data: select the chip in data mode, send the bytes, deselect.
pub open spec fn data_ops(d: Seq<u8>) -> Seq<Op> {
    seq![Op::SetCs(true), Op::SetDc(true), Op::SetCs(false)] + data_writes(d) + seq![Op::SetCs(true)]
}

/// Sending a command byte, then its parameters, if any, as data.
pub open spec fn command_ops(command: u8, params: Seq<u8>) -> Seq<Op> {
    seq![Op::SetCs(true), Op::SetDc(false), Op::SetCs(false), Op::Write(seq![command])] + (if params.len() > 0 {
        seq![Op::SetDc(true)] + data_ops(params)
    } else {
        seq![]
    }) + seq![Op::SetCs(true)]
}

/// The data `d` in transfers of at most `n` bytes, each sent as data.
pub open spec fn chunked_data_ops(d: Seq<u8>, n: nat) -> Seq<Op>
    decreases d.len(),
{
    if d.len() == 0 || n == 0 {
        seq![]
    } else if d.len() <= n {
        data_ops(d)
    } else {
        data_ops(d.take(n as int)) + chunked_data_ops(d.skip(n as int), n)
    }
}

/// The big-endian bytes of a 16-bit value.
pub open spec fn be_bytes(v: u16) -> Seq<u8> {
    seq![color_high(v), color_low(v)]
}

pub(crate) fn push_op(ops: &mut Vec<BusOp>, op: BusOp)
    ensures
        ops_view(final(ops)@) == ops_view(old(ops)@).push(op@),
{
    let ghost v = op@;
    ops.push(op);
    assert(ops_view(ops@) =~= ops_view(old(ops)@).push(v));
}

/// Appends the transfers that carry `data`.
pub(crate) fn push_data_writes(ops: &mut Vec<BusOp>, data: &[u8])
    ensures
        ops_view(final(ops)@) == ops_view(old(ops)@) + data_writes(data@),
{
    let len = data.len();
    let ghost d = data@;
    let ghost base = ops_view(ops@);
    let mut i: usize = 0;
    assert(d.skip(0) =~= d);
    while len - i >= 8
        invariant
            i <= len,
            len == d.len(),
            d == data@,
            ops_view(ops@) + data_writes(d.skip(i as int)) == base + data_writes(d),
        decreases len - i,
    {
        let ghost before = ops_view(ops@);
        let chunk = vstd::slice::slice_to_vec(&data[i..i + 8]);
        push_op(ops, BusOp::Write(chunk));
        proof {
            let rest = d.skip(i as int);
            assert(rest.take(8) =~= d.subrange(i as int, i + 8));
            assert(rest.skip(8) =~= d.skip(i + 8));
            assert(data_writes(rest) == seq![Op::Write(rest.take(8))] + data_writes(rest.skip(8)));
            assert(ops_view(ops@) + data_writes(d.skip(i + 8)) =~= before + data_writes(rest));
        }
        i = i + 8;
    }
    if len - i >= 4 {
        let ghost before = ops_view(ops@);
        let chunk = vstd::slice::slice_to_vec(&data[i..i + 4]);
        push_op(ops, BusOp::Write(chunk));
        proof {
            let rest = d.skip(i as int);
            assert(rest.take(4) =~= d.subrange(i as int, i + 4));
            assert(rest.skip(4) =~= d.skip(i + 4));
            assert(data_writes(rest) == seq![Op::Write(rest.take(4))] + data_writes(rest.skip(4)));
            assert(ops_view(ops@) + data_writes(d.skip(i + 4)) =~= before + data_writes(rest));
        }
        i = i + 4;
    }
    if len - i > 0 {
        let ghost before = ops_view(ops@);
        let chunk = vstd::slice::slice_to_vec(&data[i..len]);
        push_op(ops, BusOp::Write(chunk));
        proof {
            let rest = d.skip(i as int);
            assert(rest =~= d.subrange(i as int, len as int));
            assert(data_writes(rest) == seq![Op::Write(rest)]);
            assert(ops_view(ops@) =~= before + data_writes(rest));
            assert(d.skip(len as int) =~= Seq::<u8>::empty());
            assert(data_writes(d.skip(len as int)) =~= Seq::<Op>::empty());
        }
        i = len;
    } else {
        proof {
            assert(d.skip(i as int) =~= Seq::<u8>::empty());
        }
    }
    proof {
        assert(d.skip(i as int) =~= Seq::<u8>::empty());
        assert(data_writes(d.skip(i as int)) =~= Seq::<Op>::empty());
        assert(ops_view(ops@) + data_writes(d.skip(i as int)) =~= ops_view(ops@));
    }
}

/// Appends the steps that send `data` as data.
pub(crate) fn push_data(ops: &mut Vec<BusOp>, data: &[u8])
    ensures
        ops_view(final(ops)@) == ops_view(old(ops)@) + data_ops(data@),
{
    let ghost base = ops_view(ops@);
    push_op(ops, BusOp::SetCs(true));
    push_op(ops, BusOp::SetDc(true));
    push_op(ops, BusOp::SetCs(false));
    push_data_writes(ops, data);
    push_op(ops, BusOp::SetCs(true));
    assert(ops_view(ops@) =~= base + data_ops(data@));
}

/// Appends the steps that send a command byte and its parameters.
pub(crate) fn push_command(ops: &mut Vec<BusOp>, command: u8, params: &[u8])
    ensures
        ops_view(final(ops)@) == ops_view(old(ops)@) + command_ops(command, params@),
{
    let ghost base = ops_view(ops@);
    push_op(ops, BusOp::SetCs(true));
    push_op(ops, BusOp::SetDc(false));
    push_op(ops, BusOp::SetCs(false));
    let mut cmd_buf: Vec<u8> = Vec::new();
    cmd_buf.push(command);
    assert(cmd_buf@ =~= seq![command]);
    push_op(ops, BusOp::Write(cmd_buf));
    if params.len() > 0 {
        push_op(ops, BusOp::SetDc(true));
        push_data(ops, params);
    }
    push_op(ops, BusOp::SetCs(true));
    assert(ops_view(ops@) =~= base + command_ops(command, params@));
}

/// Appends the steps that send the data in transfers of at most `n` bytes.
pub(crate) fn push_chunked_data(ops: &mut Vec<BusOp>, data: &[u8], n: usize)
    requires
        n > 0,
    ensures
        ops_view(final(ops)@) == ops_view(old(ops)@) + chunked_data_ops(data@, n as nat),
{
    let len = data.len();
    let ghost d = data@;
    let ghost base = ops_view(ops@);
    let mut i: usize = 0;
    assert(d.skip(0) =~= d);
    while i < len
        invariant
            i <= len,
            len == d.len(),
            d == data@,
            n > 0,
            ops_view(ops@) + chunked_data_ops(d.skip(i as int), n as nat) == base + chunked_data_ops(d, n as nat),
        decreases len - i,
    {
        let ghost before = ops_view(ops@);
        let ghost rest = d.skip(i as int);
        let end = if len - i <= n {
            len
        } else {
            i + n
        };
        push_data(ops, &data[i..end]);
        proof {
            if len - i <= n {
                assert(d.subrange(i as int, end as int) =~= rest);
                assert(d.skip(end as int) =~= Seq::<u8>::empty());
                assert(chunked_data_ops(rest, n as nat) == data_ops(rest));
                assert(ops_view(ops@) + chunked_data_ops(d.skip(end as int), n as nat) =~= before
                    + chunked_data_ops(rest, n as nat));
            } else {
                assert(d.subrange(i as int, end as int) =~= rest.take(n as int));
                assert(rest.skip(n as int) =~= d.skip(end as int));
                assert(ops_view(ops@) + chunked_data_ops(d.skip(end as int), n as nat) =~= before
                    + chunked_data_ops(rest, n as nat));
            }
        }
        i = end;
    }
    assert(d.skip(i as int) =~= Seq::<u8>::empty());
    assert(ops_view(ops@) + chunked_data_ops(d.skip(i as int), n as nat) =~= ops_view(ops@));
}

/// Appends the steps that send a 16-bit value, high byte first, as data.
pub(crate) fn push_word(ops: &mut Vec<BusOp>, value: u16)
    ensures
        ops_view(final(ops)@) == ops_view(old(ops)@) + data_ops(be_bytes(value)),
{
    let mut bytes: Vec<u8> = Vec::new();
    bytes.push(high_byte(value));
    bytes.push(low_byte(value));
    assert(bytes@ =~= be_bytes(value));
    push_data(ops, bytes.as_slice());
}


/// The bytes sent by two step lists in a row are those of the first, then those of the second.
pub broadcast proof fn lemma_transmitted_concat(a: Seq<Op>, b: Seq<Op>)
    ensures
        #[trigger] transmitted(a + b) == transmitted(a) + transmitted(b),
    decreases b.len(),
{
    if b.len() == 0 {
        assert(a + b =~= a);
        assert(transmitted(a) + seq![] =~= transmitted(a));
    } else {
        lemma_transmitted_concat(a, b.drop_last());
        assert((a + b).drop_last() =~= a + b.drop_last());
        assert((a + b).last() == b.last());
        let tail = match b.last() {
            Op::Write(x) => x,
            _ => seq![],
        };
        assert(transmitted(a) + transmitted(b.drop_last()) + tail =~= transmitted(a) + (transmitted(
            b.drop_last(),
        ) + tail));
    }
}

/// Two step lists whose transfers fit the buffers still fit when run one after the other.
pub broadcast proof fn lemma_writes_fit_concat(a: Seq<Op>, b: Seq<Op>)
    requires
        writes_fit(a),
        writes_fit(b),
    ensures
        #[trigger] writes_fit(a + b),
{
    assert forall|i: int| 0 <= i < (a + b).len() implies (#[trigger] (a + b)[i] matches Op::Write(x)
        ==> transfer_size_ok(x.len() as int)) by {
        if i < a.len() {
            assert((a + b)[i] == a[i]);
        } else {
            assert((a + b)[i] == b[i - a.len()]);
        }
    }
}

/// Steps with no transfer send nothing and fit any buffer.
pub proof fn lemma_no_writes(a: Seq<Op>)
    requires
        forall|i: int| 0 <= i < a.len() ==> !(#[trigger] a[i] is Write),
    ensures
        writes_fit(a),
        transmitted(a) == Seq::<u8>::empty(),
    decreases a.len(),
{
    if a.len() > 0 {
        let b = a.drop_last();
        assert forall|i: int| 0 <= i < b.len() implies !(#[trigger] b[i] is Write) by {
            assert(b[i] == a[i]);
        }
        lemma_no_writes(b);
        assert(!(a[a.len() - 1] is Write));
    }
}

/// The transfers that carry `d` send exactly `d`, in pieces of one, two, three, four or
/// eight bytes.
pub proof fn lemma_data_writes(d: Seq<u8>)
    ensures
        writes_fit(data_writes(d)),
        transmitted(data_writes(d)) == d,
    decreases d.len(),
{
    if d.len() >= 8 || (4 <= d.len() < 8) {
        let k: int = if d.len() >= 8 { 8 } else { 4 };
        lemma_data_writes(d.skip(k));
        let head = seq![Op::Write(d.take(k))];
        lemma_single_write(d.take(k));
        lemma_transmitted_concat(head, data_writes(d.skip(k)));
        assert(writes_fit(head));
        lemma_writes_fit_concat(head, data_writes(d.skip(k)));
        assert(d.take(k) + d.skip(k) =~= d);
    } else if d.len() > 0 {
        lemma_single_write(d);
        assert(writes_fit(seq![Op::Write(d)]));
    } else {
        assert(d =~= Seq::<u8>::empty());
    }
}

/// Sending data puts exactly those bytes on the bus, in transfers that fit the buffers.
pub broadcast proof fn lemma_data_ops(d: Seq<u8>)
    ensures
        writes_fit(#[trigger] data_ops(d)),
        transmitted(data_ops(d)) == d,
{
    let pre = seq![Op::SetCs(true), Op::SetDc(true), Op::SetCs(false)];
    let post = seq![Op::SetCs(true)];
    lemma_no_writes(pre);
    lemma_no_writes(post);
    lemma_data_writes(d);
    lemma_transmitted_concat(pre, data_writes(d));
    lemma_transmitted_concat(pre + data_writes(d), post);
    lemma_writes_fit_concat(pre, data_writes(d));
    lemma_writes_fit_concat(pre + data_writes(d), post);
    assert(Seq::<u8>::empty() + d + Seq::<u8>::empty() =~= d);
}

/// Sending a command puts its opcode, then its parameters, on the bus.
pub broadcast proof fn lemma_command_ops(command: u8, params: Seq<u8>)
    ensures
        writes_fit(#[trigger] command_ops(command, params)),
        transmitted(command_ops(command, params)) == seq![command] + params,
{
    let pre = seq![Op::SetCs(true), Op::SetDc(false), Op::SetCs(false)];
    let w = seq![Op::Write(seq![command])];
    let post = seq![Op::SetCs(true)];
    let mid = if params.len() > 0 {
        seq![Op::SetDc(true)] + data_ops(params)
    } else {
        seq![]
    };
    lemma_no_writes(pre);
    lemma_no_writes(post);
    lemma_single_write(seq![command]);
    assert(writes_fit(w));
    if params.len() > 0 {
        lemma_no_writes(seq![Op::SetDc(true)]);
        lemma_data_ops(params);
        lemma_transmitted_concat(seq![Op::SetDc(true)], data_ops(params));
        lemma_writes_fit_concat(seq![Op::SetDc(true)], data_ops(params));
        assert(transmitted(mid) =~= params);
    } else {
        lemma_no_writes(mid);
        assert(params =~= Seq::<u8>::empty());
    }
    lemma_transmitted_concat(pre, w);
    lemma_transmitted_concat(pre + w, mid);
    lemma_transmitted_concat(pre + w + mid, post);
    lemma_writes_fit_concat(pre, w);
    lemma_writes_fit_concat(pre + w, mid);
    lemma_writes_fit_concat(pre + w + mid, post);
    assert(command_ops(command, params) == pre + w + mid + post);
    assert(Seq::<u8>::empty() + seq![command] + params + Seq::<u8>::empty() =~= seq![command] + params);
}

/// Sending data in bounded pieces puts exactly those bytes on the bus.
pub broadcast proof fn lemma_chunked_data_ops(d: Seq<u8>, n: nat)
    requires
        n > 0,
    ensures
        writes_fit(#[trigger] chunked_data_ops(d, n)),
        transmitted(chunked_data_ops(d, n)) == d,
    decreases d.len(),
{
    if d.len() == 0 {
        lemma_no_writes(Seq::<Op>::empty());
        assert(d =~= Seq::<u8>::empty());
    } else if d.len() <= n {
        lemma_data_ops(d);
    } else {
        lemma_data_ops(d.take(n as int));
        lemma_chunked_data_ops(d.skip(n as int), n);
        lemma_transmitted_concat(data_ops(d.take(n as int)), chunked_data_ops(d.skip(n as int), n));
        lemma_writes_fit_concat(data_ops(d.take(n as int)), chunked_data_ops(d.skip(n as int), n));
        assert(d.take(n as int) + d.skip(n as int) =~= d);
    }
}


/// A single pin step or delay sends nothing and fits any buffer.
pub broadcast proof fn lemma_single_step(o: Op)
    requires
        !(o is Write),
    ensures
        #[trigger] transmitted(seq![o]) == Seq::<u8>::empty(),
        writes_fit(seq![o]),
{
    let s = seq![o];
    assert(s.drop_last() =~= Seq::<Op>::empty());
    assert(transmitted(s) == transmitted(s.drop_last()) + Seq::<u8>::empty());
    assert(Seq::<u8>::empty() + Seq::<u8>::empty() =~= Seq::<u8>::empty());
}

/// A single transfer sends its bytes, and fits when its size is one of the buffers'.
pub broadcast proof fn lemma_single_write(b: Seq<u8>)
    ensures
        #[trigger] transmitted(seq![Op::Write(b)]) == b,
        transfer_size_ok(b.len() as int) ==> writes_fit(seq![Op::Write(b)]),
{
    let s = seq![Op::Write(b)];
    assert(s.len() == 1);
    assert(s.drop_last() =~= Seq::<Op>::empty());
    assert(s.last() == Op::Write(b));
    assert(transmitted(s.drop_last()) == Seq::<u8>::empty());
    assert(transmitted(s) == transmitted(s.drop_last()) + b);
    assert(Seq::<u8>::empty() + b =~= b);
}

/// The level of the chip-select line after the steps, when it was at `level` before.
pub open spec fn cs_after(ops: Seq<Op>, level: bool) -> bool
    decreases ops.len(),
{
    if ops.len() == 0 {
        level
    } else {
        match ops.last() {
            Op::SetCs(b) => b,
            _ => cs_after(ops.drop_last(), level),
        }
    }
}

/// Running two step lists in a row leaves chip select where the second leaves it.
pub broadcast proof fn lemma_cs_concat(a: Seq<Op>, b: Seq<Op>, level: bool)
    ensures
        #[trigger] cs_after(a + b, level) == cs_after(b, cs_after(a, level)),
    decreases b.len(),
{
    if b.len() == 0 {
        assert(a + b =~= a);
    } else {
        lemma_cs_concat(a, b.drop_last(), level);
        assert((a + b).drop_last() =~= a + b.drop_last());
        assert((a + b).last() == b.last());
    }
}

/// A step that does not touch chip select leaves it where it was.
pub broadcast proof fn lemma_cs_single_step(o: Op, level: bool)
    requires
        !(o is SetCs),
    ensures
        #[trigger] cs_after(seq![o], level) == level,
{
    let s = seq![o];
    assert(s.len() == 1);
    assert(s.last() == o);
    assert(s.drop_last() =~= Seq::<Op>::empty());
    assert(cs_after(s.drop_last(), level) == level);
}

/// Sending data ends with the chip deselected.
pub broadcast proof fn lemma_cs_data(d: Seq<u8>, level: bool)
    ensures
        #[trigger] cs_after(data_ops(d), level),
{
    let s = data_ops(d);
    assert(s.last() == Op::SetCs(true));
}

/// Sending a command ends with the chip deselected.
pub broadcast proof fn lemma_cs_command(command: u8, params: Seq<u8>, level: bool)
    ensures
        #[trigger] cs_after(command_ops(command, params), level),
{
    let s = command_ops(command, params);
    assert(s.last() == Op::SetCs(true));
}

/// Sending data in pieces leaves the chip deselected when it was deselected before.
pub broadcast proof fn lemma_cs_chunked(d: Seq<u8>, n: nat)
    ensures
        #[trigger] cs_after(chunked_data_ops(d, n), true),
    decreases d.len(),
{
    if d.len() == 0 || n == 0 {
        assert(chunked_data_ops(d, n) =~= Seq::<Op>::empty());
    } else if d.len() <= n {
        lemma_cs_data(d, true);
    } else {
        lemma_cs_chunked(d.skip(n as int), n);
        lemma_cs_concat(data_ops(d.take(n as int)), chunked_data_ops(d.skip(n as int), n), true);
        lemma_cs_data(d.take(n as int), true);
    }
}

/// The level of the data/command line after the steps, when it was at `level` before.
pub open spec fn dc_after(ops: Seq<Op>, level: bool) -> bool
    decreases ops.len(),
{
    if ops.len() == 0 {
        level
    } else {
        match ops.last() {
            Op::SetDc(b) => b,
            _ => dc_after(ops.drop_last(), level),
        }
    }
}

/// The bytes the steps send while the data/command line is high (`data`) or low
/// (`!data`), when it was at `level` before: the controller takes the first as
/// parameters and pixels, the second as opcodes.
pub open spec fn sent_in_mode(ops: Seq<Op>, level: bool, data: bool) -> Seq<u8>
    decreases ops.len(),
{
    if ops.len() == 0 {
        seq![]
    } else {
        let before = ops.drop_last();
        sent_in_mode(before, level, data) + match ops.last() {
            Op::Write(b) => if dc_after(before, level) == data {
                b
            } else {
                seq![]
            },
            _ => seq![],
        }
    }
}

/// Running two step lists in a row: the line ends where the second leaves it.
pub broadcast proof fn lemma_dc_concat(a: Seq<Op>, b: Seq<Op>, level: bool)
    ensures
        #[trigger] dc_after(a + b, level) == dc_after(b, dc_after(a, level)),
    decreases b.len(),
{
    if b.len() == 0 {
        assert(a + b =~= a);
    } else {
        lemma_dc_concat(a, b.drop_last(), level);
        assert((a + b).drop_last() =~= a + b.drop_last());
        assert((a + b).last() == b.last());
    }
}

/// Running two step lists in a row: the second sends in the mode the first left.
pub broadcast proof fn lemma_sent_in_mode_concat(a: Seq<Op>, b: Seq<Op>, level: bool, data: bool)
    ensures
        #[trigger] sent_in_mode(a + b, level, data) == sent_in_mode(a, level, data) + sent_in_mode(
            b,
            dc_after(a, level),
            data,
        ),
    decreases b.len(),
{
    if b.len() == 0 {
        assert(a + b =~= a);
        assert(sent_in_mode(a, level, data) + Seq::<u8>::empty() =~= sent_in_mode(a, level, data));
    } else {
        lemma_sent_in_mode_concat(a, b.drop_last(), level, data);
        lemma_dc_concat(a, b.drop_last(), level);
        assert((a + b).drop_last() =~= a + b.drop_last());
        assert((a + b).last() == b.last());
        let tail = match b.last() {
            Op::Write(x) => if dc_after(b.drop_last(), dc_after(a, level)) == data {
                x
            } else {
                seq![]
            },
            _ => seq![],
        };
        assert(sent_in_mode(a, level, data) + sent_in_mode(b.drop_last(), dc_after(a, level), data) + tail
            =~= sent_in_mode(a, level, data) + (sent_in_mode(b.drop_last(), dc_after(a, level), data) + tail));
    }
}

/// A single step that sends nothing leaves the line as it sets it and sends nothing.
pub broadcast proof fn lemma_mode_single_step(o: Op, level: bool, data: bool)
    requires
        !(o is Write),
    ensures
        #[trigger] sent_in_mode(seq![o], level, data) == Seq::<u8>::empty(),
        dc_after(seq![o], level) == match o {
            Op::SetDc(b) => b,
            _ => level,
        },
{
    let s = seq![o];
    assert(s.len() == 1);
    assert(s.last() == o);
    assert(s.drop_last() =~= Seq::<Op>::empty());
    assert(dc_after(s.drop_last(), level) == level);
    assert(sent_in_mode(s.drop_last(), level, data) == Seq::<u8>::empty());
    assert(Seq::<u8>::empty() + Seq::<u8>::empty() =~= Seq::<u8>::empty());
}

/// A single transfer sends its bytes in the mode the line is in.
pub broadcast proof fn lemma_mode_single_write(b: Seq<u8>, level: bool, data: bool)
    ensures
        #[trigger] sent_in_mode(seq![Op::Write(b)], level, data) == if level == data {
            b
        } else {
            Seq::<u8>::empty()
        },
        dc_after(seq![Op::Write(b)], level) == level,
{
    let s = seq![Op::Write(b)];
    assert(s.len() == 1);
    assert(s.last() == Op::Write(b));
    assert(s.drop_last() =~= Seq::<Op>::empty());
    assert(dc_after(s.drop_last(), level) == level);
    assert(sent_in_mode(s.drop_last(), level, data) == Seq::<u8>::empty());
    assert(Seq::<u8>::empty() + b =~= b);
    assert(Seq::<u8>::empty() + Seq::<u8>::empty() =~= Seq::<u8>::empty());
}

proof fn lemma_mode_data_writes(d: Seq<u8>, level: bool, data: bool)
    ensures
        dc_after(data_writes(d), level) == level,
        sent_in_mode(data_writes(d), level, data) == if level == data {
            d
        } else {
            Seq::<u8>::empty()
        },
    decreases d.len(),
{
    if d.len() >= 8 || (4 <= d.len() < 8) {
        let k: int = if d.len() >= 8 { 8 } else { 4 };
        lemma_mode_data_writes(d.skip(k), level, data);
        let head = seq![Op::Write(d.take(k))];
        lemma_mode_single_write(d.take(k), level, data);
        lemma_sent_in_mode_concat(head, data_writes(d.skip(k)), level, data);
        lemma_dc_concat(head, data_writes(d.skip(k)), level);
        assert(d.take(k) + d.skip(k) =~= d);
        assert(Seq::<u8>::empty() + Seq::<u8>::empty() =~= Seq::<u8>::empty());
    } else if d.len() > 0 {
        lemma_mode_single_write(d, level, data);
    } else {
        assert(d =~= Seq::<u8>::empty());
    }
}

/// Sending data puts all its bytes out in data mode and leaves the line in data mode.
pub broadcast proof fn lemma_mode_data(d: Seq<u8>, level: bool)
    ensures
        #[trigger] dc_after(data_ops(d), level),
        sent_in_mode(data_ops(d), level, true) == d,
        sent_in_mode(data_ops(d), level, false) == Seq::<u8>::empty(),
{
    let pre = seq![Op::SetCs(true), Op::SetDc(true), Op::SetCs(false)];
    let post = seq![Op::SetCs(true)];
    let w = data_writes(d);
    assert(pre == seq![Op::SetCs(true)] + seq![Op::SetDc(true)] + seq![Op::SetCs(false)]);
    lemma_mode_single_step(Op::SetCs(true), level, true);
    lemma_mode_single_step(Op::SetCs(true), level, false);
    lemma_mode_single_step(Op::SetDc(true), level, true);
    lemma_mode_single_step(Op::SetDc(true), level, false);
    lemma_mode_single_step(Op::SetCs(false), true, true);
    lemma_mode_single_step(Op::SetCs(false), true, false);
    lemma_mode_single_step(Op::SetCs(true), true, true);
    lemma_mode_single_step(Op::SetCs(true), true, false);
    lemma_dc_concat(seq![Op::SetCs(true)], seq![Op::SetDc(true)], level);
    lemma_dc_concat(seq![Op::SetCs(true)] + seq![Op::SetDc(true)], seq![Op::SetCs(false)], level);
    lemma_sent_in_mode_concat(seq![Op::SetCs(true)], seq![Op::SetDc(true)], level, true);
    lemma_sent_in_mode_concat(seq![Op::SetCs(true)], seq![Op::SetDc(true)], level, false);
    lemma_sent_in_mode_concat(seq![Op::SetCs(true)] + seq![Op::SetDc(true)], seq![Op::SetCs(false)], level, true);
    lemma_sent_in_mode_concat(seq![Op::SetCs(true)] + seq![Op::SetDc(true)], seq![Op::SetCs(false)], level, false);
    lemma_mode_data_writes(d, true, true);
    lemma_mode_data_writes(d, true, false);
    lemma_dc_concat(pre, w, level);
    lemma_dc_concat(pre + w, post, level);
    lemma_sent_in_mode_concat(pre, w, level, true);
    lemma_sent_in_mode_concat(pre, w, level, false);
    lemma_sent_in_mode_concat(pre + w, post, level, true);
    lemma_sent_in_mode_concat(pre + w, post, level, false);
    assert(Seq::<u8>::empty() + Seq::<u8>::empty() + Seq::<u8>::empty() =~= Seq::<u8>::empty());
    assert(Seq::<u8>::empty() + d + Seq::<u8>::empty() =~= d);
}

/// Sending a command puts its opcode out in command mode and its parameters in data mode.
pub broadcast proof fn lemma_mode_command(command: u8, params: Seq<u8>, level: bool)
    ensures
        #[trigger] dc_after(command_ops(command, params), level) == (params.len() > 0),
        sent_in_mode(command_ops(command, params), level, false) == seq![command],
        sent_in_mode(command_ops(command, params), level, true) == params,
{
    let a = seq![Op::SetCs(true)];
    let b = seq![Op::SetDc(false)];
    let c = seq![Op::SetCs(false)];
    let w = seq![Op::Write(seq![command])];
    let z = seq![Op::SetCs(true)];
    let mid = if params.len() > 0 {
        seq![Op::SetDc(true)] + data_ops(params)
    } else {
        seq![]
    };
    assert(command_ops(command, params) == a + b + c + w + mid + z);
    lemma_mode_single_step(Op::SetCs(true), level, true);
    lemma_mode_single_step(Op::SetCs(true), level, false);
    lemma_mode_single_step(Op::SetDc(false), level, true);
    lemma_mode_single_step(Op::SetDc(false), level, false);
    lemma_mode_single_step(Op::SetCs(false), false, true);
    lemma_mode_single_step(Op::SetCs(false), false, false);
    lemma_mode_single_write(seq![command], false, true);
    lemma_mode_single_write(seq![command], false, false);
    lemma_dc_concat(a, b, level);
    lemma_dc_concat(a + b, c, level);
    lemma_dc_concat(a + b + c, w, level);
    lemma_dc_concat(a + b + c + w, mid, level);
    lemma_dc_concat(a + b + c + w + mid, z, level);
    lemma_sent_in_mode_concat(a, b, level, true);
    lemma_sent_in_mode_concat(a, b, level, false);
    lemma_sent_in_mode_concat(a + b, c, level, true);
    lemma_sent_in_mode_concat(a + b, c, level, false);
    lemma_sent_in_mode_concat(a + b + c, w, level, true);
    lemma_sent_in_mode_concat(a + b + c, w, level, false);
    lemma_sent_in_mode_concat(a + b + c + w, mid, level, true);
    lemma_sent_in_mode_concat(a + b + c + w, mid, level, false);
    lemma_sent_in_mode_concat(a + b + c + w + mid, z, level, true);
    lemma_sent_in_mode_concat(a + b + c + w + mid, z, level, false);
    if params.len() > 0 {
        lemma_mode_single_step(Op::SetDc(true), false, true);
        lemma_mode_single_step(Op::SetDc(true), false, false);
        lemma_mode_data(params, true);
        lemma_dc_concat(seq![Op::SetDc(true)], data_ops(params), false);
        lemma_sent_in_mode_concat(seq![Op::SetDc(true)], data_ops(params), false, true);
        lemma_sent_in_mode_concat(seq![Op::SetDc(true)], data_ops(params), false, false);
        lemma_mode_single_step(Op::SetCs(true), true, true);
        lemma_mode_single_step(Op::SetCs(true), true, false);
        assert(Seq::<u8>::empty() + params =~= params);
    } else {
        assert(mid =~= Seq::<Op>::empty());
        assert(params =~= Seq::<u8>::empty());
        lemma_mode_single_step(Op::SetCs(true), false, true);
        lemma_mode_single_step(Op::SetCs(true), false, false);
    }
    assert(Seq::<u8>::empty() + Seq::<u8>::empty() =~= Seq::<u8>::empty());
    assert(Seq::<u8>::empty() + seq![command] =~= seq![command]);
    assert(seq![command] + Seq::<u8>::empty() =~= seq![command]);
    assert(Seq::<u8>::empty() + params =~= params);
    assert(params + Seq::<u8>::empty() =~= params);
}

/// Sending data in pieces puts all its bytes out in data mode.
pub broadcast proof fn lemma_mode_chunked(d: Seq<u8>, n: nat, level: bool)
    requires
        n > 0,
    ensures
        #[trigger] sent_in_mode(chunked_data_ops(d, n), level, true) == d,
        sent_in_mode(chunked_data_ops(d, n), level, false) == Seq::<u8>::empty(),
        dc_after(chunked_data_ops(d, n), level) == (d.len() > 0 || level),
    decreases d.len(),
{
    if d.len() == 0 {
        assert(d =~= Seq::<u8>::empty());
    } else if d.len() <= n {
        lemma_mode_data(d, level);
    } else {
        lemma_mode_data(d.take(n as int), level);
        lemma_mode_chunked(d.skip(n as int), n, true);
        lemma_dc_concat(data_ops(d.take(n as int)), chunked_data_ops(d.skip(n as int), n), level);
        lemma_sent_in_mode_concat(data_ops(d.take(n as int)), chunked_data_ops(d.skip(n as int), n), level, true);
        lemma_sent_in_mode_concat(data_ops(d.take(n as int)), chunked_data_ops(d.skip(n as int), n), level, false);
        assert(d.take(n as int) + d.skip(n as int) =~= d);
        assert(Seq::<u8>::empty() + Seq::<u8>::empty() =~= Seq::<u8>::empty());
    }
}

/// What the contracts of bus steps are proved with.
pub broadcast group group_bus_laws {
    lemma_transmitted_concat,
    lemma_writes_fit_concat,
    lemma_data_ops,
    lemma_command_ops,
    lemma_chunked_data_ops,
    lemma_single_step,
    lemma_single_write,
    lemma_cs_concat,
    lemma_cs_single_step,
    lemma_cs_data,
    lemma_cs_command,
    lemma_cs_chunked,
}


/// What the contracts on command and data mode are proved with.
pub broadcast group group_mode_laws {
    lemma_dc_concat,
    lemma_sent_in_mode_concat,
    lemma_mode_single_step,
    lemma_mode_single_write,
    lemma_mode_data,
    lemma_mode_command,
    lemma_mode_chunked,
}
} // verus!

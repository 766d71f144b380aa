//! The protocol's message type and its wire encoding.

use vstd::prelude::*;

verus! {

/// Carriage return, the first byte of a frame terminator.
pub const CR: u8 = 13;

/// Line feed, the second byte of a frame terminator.
pub const LF: u8 = 10;

/// A protocol message: the tagged variant type of the wire format.
#[derive(Debug, PartialEq, Eq)]
pub enum Resp {
    Null,
    SimpleString(Vec<u8>),
    Error(Vec<u8>),
    BulkString(Vec<u8>),
    Integer(i64),
    Array(Vec<Resp>),
}

/// The mathematical model of a message: payloads are byte sequences,
/// integers unbounded, arrays sequences of models.
pub enum MsgModel {
    Null,
    SimpleString(Seq<u8>),
    Error(Seq<u8>),
    BulkString(Seq<u8>),
    Integer(int),
    Array(Seq<MsgModel>),
}

/// The model of one message value.
pub open spec fn msg_view(m: Resp) -> MsgModel
    decreases m, 0int, 0int,
{
    match m {
        Resp::Null => MsgModel::Null,
        Resp::SimpleString(s) => MsgModel::SimpleString(s@),
        Resp::Error(s) => MsgModel::Error(s@),
        Resp::BulkString(s) => MsgModel::BulkString(s@),
        Resp::Integer(i) => MsgModel::Integer(i as int),
        Resp::Array(items) => MsgModel::Array(list_view(items@, 0)),
    }
}

/// The models of `items[from..]`, in order.
pub open spec fn list_view(items: Seq<Resp>, from: int) -> Seq<MsgModel>
    decreases items, 1int, items.len() - from,
{
    if from < 0 || from >= items.len() {
        Seq::empty()
    } else {
        seq![msg_view(items[from])] + list_view(items, from + 1)
    }
}

impl View for Resp {
    type V = MsgModel;

    open spec fn view(&self) -> MsgModel {
        msg_view(*self)
    }
}

/// The decimal digits of `n`, most significant first, as ASCII bytes.
pub open spec fn spec_digits(n: nat) -> Seq<u8>
    decreases n,
{
    if n < 10 {
        seq![(48 + n) as u8]
    } else {
        spec_digits(n / 10).push((48 + n % 10) as u8)
    }
}

/// The wire form of a signed decimal numeral: a minus sign for negative
/// values, then the digits of the magnitude.
pub open spec fn spec_int_bytes(i: int) -> Seq<u8> {
    if i < 0 {
        seq![45u8] + spec_digits((-i) as nat)
    } else {
        spec_digits(i as nat)
    }
}

/// The two-byte frame terminator.
pub open spec fn crlf() -> Seq<u8> {
    seq![CR, LF]
}

/// The canonical wire encoding of a message.
pub open spec fn spec_encode(m: MsgModel) -> Seq<u8>
    decreases m, 0int, 0int,
{
    match m {
        MsgModel::Null => seq![36u8, 45u8, 49u8] + crlf(),
        MsgModel::SimpleString(s) => seq![43u8] + s + crlf(),
        MsgModel::Error(s) => seq![45u8] + s + crlf(),
        MsgModel::Integer(i) => seq![58u8] + spec_int_bytes(i) + crlf(),
        MsgModel::BulkString(s) => seq![36u8] + spec_digits(s.len()) + crlf() + s + crlf(),
        MsgModel::Array(items) => seq![42u8] + spec_digits(items.len()) + crlf()
            + spec_encode_items(items, 0),
    }
}

/// The concatenated encodings of `items[from..]`.
pub open spec fn spec_encode_items(items: Seq<MsgModel>, from: int) -> Seq<u8>
    decreases items, 1int, items.len() - from,
{
    if from < 0 || from >= items.len() {
        Seq::empty()
    } else {
        spec_encode(items[from]) + spec_encode_items(items, from + 1)
    }
}

/// A CR LF pair sits at position `i` of `b`.
pub open spec fn crlf_at(b: Seq<u8>, i: int) -> bool {
    0 <= i && i + 2 <= b.len() && b[i] == CR && b[i + 1] == LF
}

/// The position of the first CR LF pair in `b`, if any.
pub open spec fn find_crlf(b: Seq<u8>) -> Option<int>
    decreases b.len(),
{
    if b.len() < 2 {
        Option::None
    } else if b[0] == CR && b[1] == LF {
        Option::Some(0int)
    } else {
        match find_crlf(b.drop_first()) {
            Option::Some(i) => Option::Some(i + 1),
            Option::None => Option::None,
        }
    }
}

/// An ASCII decimal digit.
pub open spec fn is_digit(b: u8) -> bool {
    48 <= b && b <= 57
}

/// Every byte of `s` is a decimal digit.
pub open spec fn all_digits(s: Seq<u8>) -> bool {
    forall|i: int| 0 <= i < s.len() ==> is_digit(#[trigger] s[i])
}

/// The value of a sequence of decimal digits, most significant first.
pub open spec fn digits_val(s: Seq<u8>) -> nat
    decreases s.len(),
{
    if s.len() == 0 {
        0
    } else {
        digits_val(s.drop_last()) * 10 + (s.last() - 48) as nat
    }
}

/// An optionally-signed decimal numeral: an optional `+` or `-`,
/// then at least one digit.
pub open spec fn is_numeral(s: Seq<u8>) -> bool {
    if s.len() == 0 {
        false
    } else if s[0] == 43 || s[0] == 45 {
        s.len() >= 2 && all_digits(s.drop_first())
    } else {
        all_digits(s)
    }
}

/// The signed value of a numeral.
pub open spec fn numeral_val(s: Seq<u8>) -> int
    recommends
        is_numeral(s),
{
    if s.len() > 0 && s[0] == 45 {
        -(digits_val(s.drop_first()) as int)
    } else if s.len() > 0 && s[0] == 43 {
        digits_val(s.drop_first()) as int
    } else {
        digits_val(s) as int
    }
}

/// Largest accepted payload of one BulkString frame.
pub const MAX_BULK_LEN: usize = 536870912;

/// Largest accepted element count of one Array frame.
pub const MAX_ARRAY_LEN: usize = 1048576;

/// What a decode attempt on a byte prefix yields: a malformed frame, an
/// incomplete frame, or one complete message and the bytes it occupies.
pub enum ParseStep {
    Bad,
    More,
    Found { msg: MsgModel, len: int },
}

/// What a decode attempt on a counted run of frames yields.
pub enum ItemsStep {
    Bad,
    More,
    Found { items: Seq<MsgModel>, len: int },
}

/// Decoding one message from the front of `b`: the meaning of the wire
/// format. A frame is `+payload CRLF`, `-payload CRLF`, `:numeral CRLF`,
/// `$len CRLF payload CRLF` or `*count CRLF frames...`; a negative length
/// or count of -1 denotes the null value; any other leading byte, any
/// malformed or oversized numeral, is a protocol error; a buffer that
/// merely ends too early asks for more bytes.
pub open spec fn spec_parse(b: Seq<u8>) -> ParseStep
    decreases b.len(), 0int, 0int,
{
    if b.len() == 0 {
        ParseStep::More
    } else if b[0] == 43 {
        match find_crlf(b.drop_first()) {
            Option::None => ParseStep::More,
            Option::Some(i) => ParseStep::Found {
                msg: MsgModel::SimpleString(b.drop_first().take(i)),
                len: 3 + i,
            },
        }
    } else if b[0] == 45 {
        match find_crlf(b.drop_first()) {
            Option::None => ParseStep::More,
            Option::Some(i) => ParseStep::Found {
                msg: MsgModel::Error(b.drop_first().take(i)),
                len: 3 + i,
            },
        }
    } else if b[0] == 58 {
        match find_crlf(b.drop_first()) {
            Option::None => ParseStep::More,
            Option::Some(i) => {
                let line = b.drop_first().take(i);
                if is_numeral(line) && i64::MIN <= numeral_val(line) <= i64::MAX {
                    ParseStep::Found { msg: MsgModel::Integer(numeral_val(line)), len: 3 + i }
                } else {
                    ParseStep::Bad
                }
            },
        }
    } else if b[0] == 36 {
        match find_crlf(b.drop_first()) {
            Option::None => ParseStep::More,
            Option::Some(i) => {
                let line = b.drop_first().take(i);
                let h = 3 + i;
                if !is_numeral(line) || numeral_val(line) < -1
                    || numeral_val(line) > MAX_BULK_LEN as int {
                    ParseStep::Bad
                } else if numeral_val(line) == -1 {
                    ParseStep::Found { msg: MsgModel::Null, len: h }
                } else {
                    let n = numeral_val(line);
                    if b.len() >= h + n + 2 {
                        if b[h + n] == CR && b[h + n + 1] == LF {
                            ParseStep::Found {
                                msg: MsgModel::BulkString(b.skip(h).take(n)),
                                len: h + n + 2,
                            }
                        } else {
                            ParseStep::Bad
                        }
                    } else {
                        ParseStep::More
                    }
                }
            },
        }
    } else if b[0] == 42 {
        match find_crlf(b.drop_first()) {
            Option::None => ParseStep::More,
            Option::Some(i) => {
                let line = b.drop_first().take(i);
                let h = 3 + i;
                if !is_numeral(line) || numeral_val(line) < -1
                    || numeral_val(line) > MAX_ARRAY_LEN as int {
                    ParseStep::Bad
                } else if numeral_val(line) == -1 {
                    ParseStep::Found { msg: MsgModel::Null, len: h }
                } else if i < 0 || h > b.len() {
                    // A found terminator lies within the buffer; the guard
                    // only keeps the recursion well-founded.
                    ParseStep::Bad
                } else {
                    match spec_parse_items(b.skip(h), numeral_val(line)) {
                        ItemsStep::Bad => ParseStep::Bad,
                        ItemsStep::More => ParseStep::More,
                        ItemsStep::Found { items, len } => ParseStep::Found {
                            msg: MsgModel::Array(items),
                            len: h + len,
                        },
                    }
                }
            },
        }
    } else {
        ParseStep::Bad
    }
}

/// Decoding `n` consecutive messages from the front of `b`.
pub open spec fn spec_parse_items(b: Seq<u8>, n: int) -> ItemsStep
    decreases b.len(), 1int, n,
{
    if n <= 0 {
        ItemsStep::Found { items: Seq::empty(), len: 0 }
    } else {
        match spec_parse(b) {
            ParseStep::Bad => ItemsStep::Bad,
            ParseStep::More => ItemsStep::More,
            ParseStep::Found { msg, len } => {
                if len < 1 || len > b.len() {
                    // A frame occupies at least one byte of the buffer; the
                    // guard only keeps the recursion well-founded.
                    ItemsStep::Bad
                } else {
                    match spec_parse_items(b.skip(len), n - 1) {
                        ItemsStep::Bad => ItemsStep::Bad,
                        ItemsStep::More => ItemsStep::More,
                        ItemsStep::Found { items, len: rest_len } => ItemsStep::Found {
                            items: seq![msg] + items,
                            len: len + rest_len,
                        },
                    }
                }
            },
        }
    }
}

/// No CR LF pair anywhere in `s`: such a payload survives line framing.
pub open spec fn line_ok(s: Seq<u8>) -> bool {
    forall|i: int| !crlf_at(s, i)
}

/// A message the encoder can frame: line payloads hold no terminator and
/// integers fit the wire's signed width.
pub open spec fn wf_msg(m: MsgModel) -> bool
    decreases m, 0int, 0int,
{
    match m {
        MsgModel::Null => true,
        MsgModel::SimpleString(s) => line_ok(s),
        MsgModel::Error(s) => line_ok(s),
        MsgModel::Integer(i) => i64::MIN <= i <= i64::MAX,
        MsgModel::BulkString(_) => true,
        MsgModel::Array(items) => wf_items(items, 0),
    }
}

/// Every element of `items[from..]` is well-formed.
pub open spec fn wf_items(items: Seq<MsgModel>, from: int) -> bool
    decreases items, 1int, items.len() - from,
{
    if from < 0 || from >= items.len() {
        true
    } else {
        wf_msg(items[from]) && wf_items(items, from + 1)
    }
}

/// A message the decoder can produce: well-formed, with every BulkString
/// and Array within the accepted frame caps.
pub open spec fn bounded_msg(m: MsgModel) -> bool
    decreases m, 0int, 0int,
{
    match m {
        MsgModel::Null => true,
        MsgModel::SimpleString(s) => line_ok(s),
        MsgModel::Error(s) => line_ok(s),
        MsgModel::Integer(i) => i64::MIN <= i <= i64::MAX,
        MsgModel::BulkString(s) => s.len() <= MAX_BULK_LEN,
        MsgModel::Array(items) => items.len() <= MAX_ARRAY_LEN && bounded_items(items, 0),
    }
}

/// Every element of `items[from..]` is within the frame caps.
pub open spec fn bounded_items(items: Seq<MsgModel>, from: int) -> bool
    decreases items, 1int, items.len() - from,
{
    if from < 0 || from >= items.len() {
        true
    } else {
        bounded_msg(items[from]) && bounded_items(items, from + 1)
    }
}

/// `wf_items` holds exactly when each element past `from` is well-formed.
pub proof fn lemma_wf_items_index(items: Seq<MsgModel>, from: int)
    requires
        0 <= from,
    ensures
        wf_items(items, from) <==> (forall|k: int|
            from <= k < items.len() ==> wf_msg(#[trigger] items[k])),
    decreases items.len() - from,
{
    if 0 <= from && from < items.len() {
        lemma_wf_items_index(items, from + 1);
    }
}

/// `bounded_items` holds exactly when each element past `from` is bounded.
pub proof fn lemma_bounded_items_index(items: Seq<MsgModel>, from: int)
    requires
        0 <= from,
    ensures
        bounded_items(items, from) <==> (forall|k: int|
            from <= k < items.len() ==> bounded_msg(#[trigger] items[k])),
    decreases items.len() - from,
{
    if 0 <= from && from < items.len() {
        lemma_bounded_items_index(items, from + 1);
    }
}

/// `list_view` has one model per element, in order.
pub proof fn lemma_list_view_index(items: Seq<Resp>, from: int)
    ensures
        0 <= from <= items.len() ==> list_view(items, from).len() == items.len() - from,
        from > items.len() || from < 0 ==> list_view(items, from).len() == 0,
        forall|k: int|
            0 <= from && from + k < items.len() && 0 <= k ==> #[trigger] list_view(items, from)[k]
                == msg_view(items[from + k]),
    decreases items.len() - from,
{
    if 0 <= from && from < items.len() {
        lemma_list_view_index(items, from + 1);
    }
}

/// `find_crlf` returns the first terminator position, or nothing when no
/// terminator lies in `b`.
pub proof fn lemma_find_crlf(b: Seq<u8>)
    ensures
        match find_crlf(b) {
            Option::Some(i) => crlf_at(b, i) && (forall|k: int| 0 <= k < i ==> !crlf_at(b, k)),
            Option::None => forall|k: int| !crlf_at(b, k),
        },
    decreases b.len(),
{
    if b.len() >= 2 && !(b[0] == CR && b[1] == LF) {
        lemma_find_crlf(b.drop_first());
        assert forall|k: int| crlf_at(b, k) && k >= 1 implies crlf_at(b.drop_first(), k - 1) by {}
        assert forall|k: int| crlf_at(b.drop_first(), k) implies crlf_at(b, k + 1) by {}
    }
}

/// A terminator at `i` with none earlier pins `find_crlf` down.
pub proof fn lemma_find_crlf_at(b: Seq<u8>, i: int)
    requires
        crlf_at(b, i),
        forall|k: int| 0 <= k < i ==> !crlf_at(b, k),
    ensures
        find_crlf(b) == Option::Some(i),
{
    lemma_find_crlf(b);
    match find_crlf(b) {
        Option::Some(j) => {
            if j < i {
                assert(!crlf_at(b, j));
            } else if i < j {
                assert(!crlf_at(b, i));
            }
        },
        Option::None => {
            assert(!crlf_at(b, i));
        },
    }
}

/// Appends the frame terminator.
fn push_crlf(out: &mut Vec<u8>)
    ensures
        final(out)@ == old(out)@ + crlf(),
{
    out.push(CR);
    out.push(LF);
    assert(final(out)@ =~= old(out)@ + crlf());
}

/// Appends a copy of `src`.
fn push_all(out: &mut Vec<u8>, src: &Vec<u8>)
    ensures
        final(out)@ == old(out)@ + src@,
{
    let mut i: usize = 0;
    while i < src.len()
        invariant
            i <= src.len(),
            out@ == old(out)@ + src@.take(i as int),
        decreases src.len() - i,
    {
        out.push(src[i]);
        assert(old(out)@ + src@.take(i as int) + seq![src@[i as int]] =~= old(out)@ + src@.take(
            i as int + 1,
        ));
        i = i + 1;
    }
    assert(old(out)@ + src@.take(src@.len() as int) =~= old(out)@ + src@);
}

/// Appends the decimal digits of `n`.
fn push_digits(n: u64, out: &mut Vec<u8>)
    ensures
        final(out)@ == old(out)@ + spec_digits(n as nat),
    decreases n,
{
    if n < 10 {
        out.push((48 + n) as u8);
        assert(final(out)@ =~= old(out)@ + spec_digits(n as nat));
    } else {
        push_digits(n / 10, out);
        out.push((48 + n % 10) as u8);
        assert(final(out)@ =~= old(out)@ + spec_digits(n as nat));
    }
}

/// Appends the wire numeral of a signed integer.
fn push_i64(i: i64, out: &mut Vec<u8>)
    ensures
        final(out)@ == old(out)@ + spec_int_bytes(i as int),
{
    if i >= 0 {
        push_digits(i as u64, out);
    } else {
        out.push(45);
        let mag: u64 = ((-(i as i128)) as u64);
        assert(mag as nat == (-(i as int)) as nat);
        push_digits(mag, out);
        assert(final(out)@ =~= old(out)@ + spec_int_bytes(i as int));
    }
}

impl Resp {
    /// Splits a request into its command name and positional arguments:
    /// the request must be an Array whose first element is a BulkString
    /// naming the command.
    #[verifier::loop_isolation(false)]
    pub fn to_command(&self) -> (r: Result<(Vec<u8>, Vec<Resp>), ProtocolError>)
        ensures
            match r {
                Result::Ok((name, args)) => self@ is Array && self@->Array_0.len() >= 1
                    && self@->Array_0[0] == MsgModel::BulkString(name@) && list_view(args@, 0)
                    == self@->Array_0.skip(1),
                Result::Err(_) => !(self@ is Array && self@->Array_0.len() >= 1
                    && self@->Array_0[0] is BulkString),
            },
    {
        match self {
            Resp::Array(items) => {
                proof {
                    lemma_list_view_index(items@, 0);
                }
                if items.len() == 0 {
                    return Result::Err(ProtocolError);
                }
                match &items[0] {
                    Resp::BulkString(s) => {
                        let name = dup_bytes(s);
                        let mut args: Vec<Resp> = Vec::new();
                        let mut t: usize = 1;
                        while t < items.len()
                            invariant
                                1 <= t <= items.len(),
                                args@.len() == t - 1,
                                forall|q: int|
                                    0 <= q < t - 1 ==> #[trigger] msg_view(args@[q]) == msg_view(
                                        items@[q + 1],
                                    ),
                            decreases items.len() - t,
                        {
                            args.push(items[t].clone());
                            t = t + 1;
                        }
                        proof {
                            lemma_list_view_index(args@, 0);
                            assert(list_view(args@, 0) =~= list_view(items@, 0).skip(1));
                        }
                        Result::Ok((name, args))
                    },
                    _ => Result::Err(ProtocolError),
                }
            },
            _ => Result::Err(ProtocolError),
        }
    }

    /// Appends this message's wire encoding to `out`.
    #[verifier::loop_isolation(false)]
    fn encode_into(&self, out: &mut Vec<u8>)
        requires
            wf_msg(self@),
        ensures
            final(out)@ == old(out)@ + spec_encode(self@),
        decreases *self,
    {
        match self {
            Resp::Null => {
                out.push(36);
                out.push(45);
                out.push(49);
                push_crlf(out);
                assert(final(out)@ =~= old(out)@ + spec_encode(self@));
            },
            Resp::SimpleString(s) => {
                out.push(43);
                push_all(out, s);
                push_crlf(out);
                assert(final(out)@ =~= old(out)@ + spec_encode(self@));
            },
            Resp::Error(s) => {
                out.push(45);
                push_all(out, s);
                push_crlf(out);
                assert(final(out)@ =~= old(out)@ + spec_encode(self@));
            },
            Resp::Integer(i) => {
                out.push(58);
                push_i64(*i, out);
                push_crlf(out);
                assert(final(out)@ =~= old(out)@ + spec_encode(self@));
            },
            Resp::BulkString(s) => {
                out.push(36);
                push_digits(s.len() as u64, out);
                push_crlf(out);
                push_all(out, s);
                push_crlf(out);
                assert(final(out)@ =~= old(out)@ + spec_encode(self@));
            },
            Resp::Array(items) => {
                out.push(42);
                push_digits(items.len() as u64, out);
                push_crlf(out);
                proof {
                    lemma_list_view_index(items@, 0);
                    lemma_wf_items_index(list_view(items@, 0), 0);
                }
                let ghost head = old(out)@ + seq![42u8] + spec_digits(items@.len() as nat)
                    + crlf();
                let ghost models = list_view(items@, 0);
                assert(out@ =~= head);
                let mut j: usize = 0;
                while j < items.len()
                    invariant
                        j <= items.len(),
                        items@.len() == models.len(),
                        forall|k: int|
                            0 <= k < items@.len() ==> #[trigger] msg_view(items@[k]) == models[k],
                        forall|k: int| 0 <= k < models.len() ==> wf_msg(#[trigger] models[k]),
                        out@ + spec_encode_items(models, j as int) == head + spec_encode_items(
                            models,
                            0,
                        ),
                    decreases items.len() - j,
                {
                    let item = &items[j];
                    assert(wf_msg(item@));
                    item.encode_into(out);
                    assert(out@ + spec_encode_items(models, j as int + 1) =~= head
                        + spec_encode_items(models, 0)) by {
                        assert(spec_encode_items(models, j as int) == spec_encode(models[j as int])
                            + spec_encode_items(models, j as int + 1));
                    }
                    j = j + 1;
                }
                assert(spec_encode_items(models, items@.len() as int) =~= Seq::<u8>::empty());
                assert(out@ =~= head + spec_encode_items(models, 0));
                assert(final(out)@ =~= old(out)@ + spec_encode(self@));
            },
        }
    }

    /// The wire encoding of this message: `$-1 CRLF` for Null,
    /// `:{i} CRLF`, `+{s} CRLF`, `-{s} CRLF`, `${len} CRLF {s} CRLF`,
    /// and `*{n} CRLF` followed by each element's encoding.
    pub fn encode(&self) -> (r: Vec<u8>)
        requires
            wf_msg(self@),
        ensures
            r@ == spec_encode(self@),
    {
        let mut out: Vec<u8> = Vec::new();
        self.encode_into(&mut out);
        assert(out@ =~= spec_encode(self@));
        out
    }
}

/// Copies a byte payload.
pub fn dup_bytes(v: &Vec<u8>) -> (r: Vec<u8>)
    ensures
        r@ == v@,
{
    let r = copy_range(v, 0, v.len());
    assert(v@.subrange(0, v@.len() as int) =~= v@);
    r
}

impl Clone for Resp {
    /// A structural copy: the copy and the source have the same model.
    #[verifier::loop_isolation(false)]
    fn clone(&self) -> (r: Self)
        ensures
            r@ == self@,
        decreases *self,
    {
        match self {
            Resp::Null => Resp::Null,
            Resp::SimpleString(s) => Resp::SimpleString(dup_bytes(s)),
            Resp::Error(s) => Resp::Error(dup_bytes(s)),
            Resp::BulkString(s) => Resp::BulkString(dup_bytes(s)),
            Resp::Integer(i) => Resp::Integer(*i),
            Resp::Array(items) => {
                let mut out: Vec<Resp> = Vec::new();
                let mut t: usize = 0;
                while t < items.len()
                    invariant
                        t <= items.len(),
                        out@.len() == t,
                        forall|q: int|
                            0 <= q < t ==> #[trigger] msg_view(out@[q]) == msg_view(items@[q]),
                    decreases items.len() - t,
                {
                    out.push(items[t].clone());
                    t = t + 1;
                }
                proof {
                    lemma_list_view_index(items@, 0);
                    lemma_list_view_index(out@, 0);
                    assert(list_view(out@, 0) =~= list_view(items@, 0));
                }
                Resp::Array(out)
            },
        }
    }
}

/// A malformed frame. Framing errors are fatal to the connection that
/// produced them, so one kind suffices.
#[derive(Debug, Clone, Copy, PartialEq, Eq, Structural)]
pub struct ProtocolError;

/// Copies `buf[from..to]` into a fresh vector.
fn copy_range(buf: &Vec<u8>, from: usize, to: usize) -> (r: Vec<u8>)
    requires
        from <= to <= buf.len(),
    ensures
        r@ == buf@.subrange(from as int, to as int),
{
    let mut out: Vec<u8> = Vec::new();
    let mut i: usize = from;
    while i < to
        invariant
            from <= i <= to <= buf.len(),
            out@ == buf@.subrange(from as int, i as int),
        decreases to - i,
    {
        out.push(buf[i]);
        assert(buf@.subrange(from as int, i as int) + seq![buf@[i as int]] =~= buf@.subrange(
            from as int,
            i as int + 1,
        ));
        i = i + 1;
    }
    out
}

/// Finds the first frame terminator at or after `from`, returning the
/// absolute position of its CR byte.
#[verifier::loop_isolation(false)]
pub fn read_until_crlf(buf: &Vec<u8>, from: usize) -> (r: Option<usize>)
    requires
        from <= buf.len(),
    ensures
        match r {
            Option::Some(j) => from <= j && j + 2 <= buf.len() && find_crlf(
                buf@.skip(from as int),
            ) == Option::Some(j - from as int),
            Option::None => find_crlf(buf@.skip(from as int)) is None,
        },
{
    let ghost b = buf@.skip(from as int);
    let mut i: usize = from;
    while buf.len() - i > 1
        invariant
            from <= i,
            i <= buf.len(),
            b == buf@.skip(from as int),
            from <= buf.len(),
            forall|k: int| 0 <= k < i - from ==> !crlf_at(b, k),
        decreases buf.len() - i,
    {
        if buf[i] == CR && buf[i + 1] == LF {
            proof {
                assert(crlf_at(b, i - from));
                lemma_find_crlf_at(b, i - from);
            }
            return Option::Some(i);
        }
        assert(!crlf_at(b, i - from));
        i = i + 1;
    }
    proof {
        assert(forall|k: int| k >= i - from ==> !crlf_at(b, k));
        lemma_find_crlf(b);
        if find_crlf(b) is Some {
            let j = find_crlf(b)->Some_0;
            assert(!crlf_at(b, j));
        }
    }
    Option::None
}

/// Parses the optionally-signed decimal numeral held in `buf[start..end]`,
/// rejecting anything malformed or outside the signed 64-bit range.
#[verifier::loop_isolation(false)]
pub fn parse_integer(buf: &Vec<u8>, start: usize, end: usize) -> (r: Result<i64, ProtocolError>)
    requires
        start <= end <= buf.len(),
    ensures
        match r {
            Result::Ok(v) => {
                let line = buf@.subrange(start as int, end as int);
                is_numeral(line) && i64::MIN <= numeral_val(line) <= i64::MAX && v as int
                    == numeral_val(line)
            },
            Result::Err(_) => {
                let line = buf@.subrange(start as int, end as int);
                !(is_numeral(line) && i64::MIN <= numeral_val(line) <= i64::MAX)
            },
        },
{
    let ghost line = buf@.subrange(start as int, end as int);
    if start == end {
        return Result::Err(ProtocolError);
    }
    let first = buf[start];
    let neg = first == 45;
    let ds: usize = if first == 43 || first == 45 {
        start + 1
    } else {
        start
    };
    let ghost digs = buf@.subrange(ds as int, end as int);
    proof {
        if ds > start {
            assert(digs =~= line.drop_first());
        } else {
            assert(digs =~= line);
        }
    }
    if ds == end {
        // A sign with no digits.
        return Result::Err(ProtocolError);
    }
    let mut acc: u128 = 0;
    let mut i: usize = ds;
    while i < end
        invariant
            ds <= i <= end <= buf.len(),
            digs == buf@.subrange(ds as int, end as int),
            all_digits(digs.take(i - ds as int)),
            acc == digits_val(digs.take(i - ds as int)),
            acc <= 9223372036854775808u128,
        decreases end - i,
    {
        let d = buf[i];
        if d < 48 || d > 57 {
            assert(!is_digit(digs[i - ds as int]));
            return Result::Err(ProtocolError);
        }
        proof {
            assert(digs.take(i + 1 - ds as int).drop_last() =~= digs.take(i - ds as int));
        }
        acc = acc * 10 + ((d - 48) as u128);
        let ghost j = i + 1 - ds as int;
        assert(acc == digits_val(digs.take(j)));
        if acc > 9223372036854775808u128 {
            // Any further digits only grow the magnitude.
            proof {
                lemma_digits_val_mono(digs, j);
                if neg {
                    assert(numeral_val(line) == -(digits_val(digs) as int));
                } else {
                    assert(numeral_val(line) == digits_val(digs) as int);
                }
            }
            return Result::Err(ProtocolError);
        }
        i = i + 1;
    }
    proof {
        assert(digs.take(end - ds as int) =~= digs);
        assert(acc == digits_val(digs));
        if neg {
            assert(numeral_val(line) == -(digits_val(digs) as int));
        } else {
            assert(numeral_val(line) == digits_val(digs) as int);
        }
    }
    if neg {
        if acc == 9223372036854775808u128 {
            Result::Ok(i64::MIN)
        } else {
            Result::Ok(-((acc as u64) as i64))
        }
    } else {
        if acc > 9223372036854775807u128 {
            Result::Err(ProtocolError)
        } else {
            Result::Ok((acc as u64) as i64)
        }
    }
}

/// A numeral the unsigned reading accepts: no minus sign, value within
/// the unsigned 64-bit range.
pub open spec fn is_u64_numeral(s: Seq<u8>) -> bool {
    is_numeral(s) && s[0] != 45 && numeral_val(s) <= u64::MAX
}

/// Parses an unsigned decimal numeral (an optional `+`, then digits),
/// rejecting anything malformed, negative or outside the unsigned
/// 64-bit range.
#[verifier::loop_isolation(false)]
pub fn parse_unsigned(buf: &Vec<u8>) -> (r: Result<u64, ProtocolError>)
    ensures
        match r {
            Result::Ok(v) => is_u64_numeral(buf@) && v as int == numeral_val(buf@),
            Result::Err(_) => !is_u64_numeral(buf@),
        },
{
    let end = buf.len();
    if end == 0 {
        return Result::Err(ProtocolError);
    }
    let first = buf[0];
    if first == 45 {
        return Result::Err(ProtocolError);
    }
    let ds: usize = if first == 43 {
        1
    } else {
        0
    };
    let ghost digs = buf@.subrange(ds as int, end as int);
    proof {
        if ds > 0 {
            assert(digs =~= buf@.drop_first());
        } else {
            assert(digs =~= buf@);
        }
    }
    if ds == end {
        return Result::Err(ProtocolError);
    }
    let mut acc: u128 = 0;
    let mut i: usize = ds;
    while i < end
        invariant
            ds <= i <= end == buf@.len(),
            all_digits(digs.take(i - ds as int)),
            acc == digits_val(digs.take(i - ds as int)),
            acc <= u64::MAX,
        decreases end - i,
    {
        let d = buf[i];
        if d < 48 || d > 57 {
            assert(!is_digit(digs[i - ds as int]));
            return Result::Err(ProtocolError);
        }
        proof {
            assert(digs.take(i + 1 - ds as int).drop_last() =~= digs.take(i - ds as int));
        }
        acc = acc * 10 + ((d - 48) as u128);
        let ghost j = i + 1 - ds as int;
        assert(acc == digits_val(digs.take(j)));
        if acc > u64::MAX as u128 {
            proof {
                lemma_digits_val_mono(digs, j);
                assert(numeral_val(buf@) == digits_val(digs) as int);
            }
            return Result::Err(ProtocolError);
        }
        i = i + 1;
    }
    proof {
        assert(digs.take(end - ds as int) =~= digs);
        assert(numeral_val(buf@) == digits_val(digs) as int);
    }
    Result::Ok(acc as u64)
}

/// A message within the decoder's caps is in particular well-formed.
pub proof fn lemma_bounded_implies_wf(m: MsgModel)
    ensures
        bounded_msg(m) ==> wf_msg(m),
    decreases m, 0int, 0int,
{
    match m {
        MsgModel::Array(items) => {
            lemma_bounded_implies_wf_items(items, 0);
        },
        _ => {},
    }
}

/// Elementwise form of `lemma_bounded_implies_wf`.
pub proof fn lemma_bounded_implies_wf_items(items: Seq<MsgModel>, from: int)
    ensures
        bounded_items(items, from) ==> wf_items(items, from),
    decreases items, 1int, items.len() - from,
{
    if 0 <= from && from < items.len() {
        lemma_bounded_implies_wf(items[from]);
        lemma_bounded_implies_wf_items(items, from + 1);
    }
}

/// What a successful decode hands back: one message and the count of
/// buffer bytes its frame occupied.
pub type Decoded = Option<(Resp, usize)>;

/// Extracts one complete message starting at `pos`, or reports that the
/// buffer holds only part of a frame (`Ok(None)`), or that the bytes at
/// `pos` are not a well-formed frame at all.
pub fn parse_message(buf: &Vec<u8>, pos: usize) -> (r: Result<Decoded, ProtocolError>)
    requires
        pos <= buf.len(),
    ensures
        decode_post(buf@, pos as int, r),
    decreases buf@.len() - pos, 1int,
{
    if pos == buf.len() {
        return Result::Ok(Option::None);
    }
    let tag = buf[pos];
    if tag == 43 {
        decode_simple_string(buf, pos)
    } else if tag == 45 {
        decode_error(buf, pos)
    } else if tag == 58 {
        decode_integer(buf, pos)
    } else if tag == 36 {
        decode_bulk_string(buf, pos)
    } else if tag == 42 {
        decode_array(buf, pos)
    } else {
        Result::Err(ProtocolError)
    }
}

/// The decoder's contract: its outcome is exactly what `spec_parse` says
/// of the bytes from `pos` on, and any message handed out is one the
/// decoder's caps admit.
pub open spec fn decode_post(buf: Seq<u8>, pos: int, r: Result<Decoded, ProtocolError>) -> bool {
    match r {
        Result::Ok(d) => match d {
            Option::Some((m, used)) => spec_parse(buf.skip(pos)) == (ParseStep::Found {
                msg: m@,
                len: used as int,
            }) && 1 <= used && pos + used <= buf.len() && bounded_msg(m@),
            Option::None => spec_parse(buf.skip(pos)) is More,
        },
        Result::Err(_) => spec_parse(buf.skip(pos)) is Bad,
    }
}

/// Decodes a `+` frame: payload up to the terminator.
fn decode_simple_string(buf: &Vec<u8>, pos: usize) -> (r: Result<Decoded, ProtocolError>)
    requires
        pos < buf.len(),
        buf@[pos as int] == 43,
    ensures
        decode_post(buf@, pos as int, r),
{
    let ghost b = buf@.skip(pos as int);
    assert(b.drop_first() =~= buf@.skip(pos as int + 1));
    match read_until_crlf(buf, pos + 1) {
        Option::None => Result::Ok(Option::None),
        Option::Some(j) => {
            let payload = copy_range(buf, pos + 1, j);
            proof {
                let i = j - (pos as int + 1);
                lemma_find_crlf(b.drop_first());
                assert(payload@ =~= b.drop_first().take(i));
                assert forall|k: int| !crlf_at(payload@, k) by {
                    if crlf_at(payload@, k) {
                        assert(crlf_at(b.drop_first(), k));
                    }
                }
            }
            Result::Ok(Option::Some((Resp::SimpleString(payload), j + 2 - pos)))
        },
    }
}

/// Decodes a `-` frame: an error payload up to the terminator.
fn decode_error(buf: &Vec<u8>, pos: usize) -> (r: Result<Decoded, ProtocolError>)
    requires
        pos < buf.len(),
        buf@[pos as int] == 45,
    ensures
        decode_post(buf@, pos as int, r),
{
    let ghost b = buf@.skip(pos as int);
    assert(b.drop_first() =~= buf@.skip(pos as int + 1));
    match read_until_crlf(buf, pos + 1) {
        Option::None => Result::Ok(Option::None),
        Option::Some(j) => {
            let payload = copy_range(buf, pos + 1, j);
            proof {
                let i = j - (pos as int + 1);
                lemma_find_crlf(b.drop_first());
                assert(payload@ =~= b.drop_first().take(i));
                assert forall|k: int| !crlf_at(payload@, k) by {
                    if crlf_at(payload@, k) {
                        assert(crlf_at(b.drop_first(), k));
                    }
                }
            }
            Result::Ok(Option::Some((Resp::Error(payload), j + 2 - pos)))
        },
    }
}

/// Decodes a `:` frame: a signed decimal numeral up to the terminator.
fn decode_integer(buf: &Vec<u8>, pos: usize) -> (r: Result<Decoded, ProtocolError>)
    requires
        pos < buf.len(),
        buf@[pos as int] == 58,
    ensures
        decode_post(buf@, pos as int, r),
{
    let ghost b = buf@.skip(pos as int);
    assert(b.drop_first() =~= buf@.skip(pos as int + 1));
    match read_until_crlf(buf, pos + 1) {
        Option::None => Result::Ok(Option::None),
        Option::Some(j) => {
            let ghost i = j - (pos as int + 1);
            assert(b.drop_first().take(i) =~= buf@.subrange(pos as int + 1, j as int));
            match parse_integer(buf, pos + 1, j) {
                Result::Err(e) => Result::Err(e),
                Result::Ok(v) => Result::Ok(Option::Some((Resp::Integer(v), j + 2 - pos))),
            }
        },
    }
}

/// Decodes a `$` frame: a length line, then that many payload bytes and
/// a terminator; length -1 is the null value.
fn decode_bulk_string(buf: &Vec<u8>, pos: usize) -> (r: Result<Decoded, ProtocolError>)
    requires
        pos < buf.len(),
        buf@[pos as int] == 36,
    ensures
        decode_post(buf@, pos as int, r),
{
    let ghost b = buf@.skip(pos as int);
    assert(b.drop_first() =~= buf@.skip(pos as int + 1));
    match read_until_crlf(buf, pos + 1) {
        Option::None => Result::Ok(Option::None),
        Option::Some(j) => {
            let ghost i = j - (pos as int + 1);
            assert(b.drop_first().take(i) =~= buf@.subrange(pos as int + 1, j as int));
            match parse_integer(buf, pos + 1, j) {
                Result::Err(e) => Result::Err(e),
                Result::Ok(v) => {
                    if v < -1 || v > MAX_BULK_LEN as i64 {
                        Result::Err(ProtocolError)
                    } else if v == -1 {
                        Result::Ok(Option::Some((Resp::Null, j + 2 - pos)))
                    } else {
                        let n = v as usize;
                        let avail = buf.len() - (j + 2);
                        if avail >= n + 2 {
                            if buf[j + 2 + n] == CR && buf[j + 2 + n + 1] == LF {
                                let payload = copy_range(buf, j + 2, j + 2 + n);
                                proof {
                                    let h = 3 + i;
                                    assert(b[h + n] == buf@[j + 2 + n]);
                                    assert(b[h + n + 1] == buf@[j + 2 + n + 1]);
                                    assert(payload@ =~= b.skip(h).take(n as int));
                                }
                                Result::Ok(Option::Some((
                                    Resp::BulkString(payload),
                                    j + 2 + n + 2 - pos,
                                )))
                            } else {
                                Result::Err(ProtocolError)
                            }
                        } else {
                            Result::Ok(Option::None)
                        }
                    }
                },
            }
        },
    }
}

/// Decodes a `*` frame: a count line, then that many recursively decoded
/// elements; count -1 is the null value.
#[verifier::loop_isolation(false)]
fn decode_array(buf: &Vec<u8>, pos: usize) -> (r: Result<Decoded, ProtocolError>)
    requires
        pos < buf.len(),
        buf@[pos as int] == 42,
    ensures
        decode_post(buf@, pos as int, r),
    decreases buf@.len() - pos, 0int,
{
    let ghost b = buf@.skip(pos as int);
    assert(b.drop_first() =~= buf@.skip(pos as int + 1));
    match read_until_crlf(buf, pos + 1) {
        Option::None => Result::Ok(Option::None),
        Option::Some(j) => {
            let ghost i = j - (pos as int + 1);
            assert(b.drop_first().take(i) =~= buf@.subrange(pos as int + 1, j as int));
            match parse_integer(buf, pos + 1, j) {
                Result::Err(e) => Result::Err(e),
                Result::Ok(v) => {
                    if v < -1 || v > MAX_ARRAY_LEN as i64 {
                        Result::Err(ProtocolError)
                    } else if v == -1 {
                        Result::Ok(Option::Some((Resp::Null, j + 2 - pos)))
                    } else {
                        let n = v as usize;
                        let ghost tail0 = buf@.skip(j + 2);
                        assert(tail0 =~= b.skip(3 + i));
                        let mut items: Vec<Resp> = Vec::new();
                        let mut cur: usize = j + 2;
                        let mut k: usize = 0;
                        while k < n
                            invariant
                                j + 2 <= cur <= buf.len(),
                                k <= n,
                                items@.len() == k,
                                forall|t: int|
                                    0 <= t < k ==> bounded_msg(
                                        #[trigger] msg_view(items@[t]),
                                    ),
                                match spec_parse_items(buf@.skip(cur as int), n - k) {
                                    ItemsStep::Found { items: rest, len } => spec_parse_items(
                                        tail0,
                                        n as int,
                                    ) == (ItemsStep::Found {
                                        items: list_view(items@, 0) + rest,
                                        len: cur - (j + 2) + len,
                                    }),
                                    ItemsStep::More => spec_parse_items(tail0, n as int) is More,
                                    ItemsStep::Bad => spec_parse_items(tail0, n as int) is Bad,
                                },
                            decreases n - k,
                        {
                            match parse_message(buf, cur) {
                                Result::Err(e) => {
                                    return Result::Err(e);
                                },
                                Result::Ok(Option::None) => {
                                    return Result::Ok(Option::None);
                                },
                                Result::Ok(Option::Some((m, used))) => {
                                    let ghost prev_items = items@;
                                    let ghost prev_cur = cur as int;
                                    items.push(m);
                                    cur = cur + used;
                                    k = k + 1;
                                    proof {
                                        assert(buf@.skip(prev_cur).skip(used as int) =~= buf@.skip(
                                            prev_cur + used,
                                        ));
                                        lemma_list_view_index(prev_items, 0);
                                        lemma_list_view_index(items@, 0);
                                        assert(list_view(items@, 0) =~= list_view(prev_items, 0)
                                            + seq![m@]);
                                        match spec_parse_items(buf@.skip(cur as int), n - k) {
                                            ItemsStep::Found { items: rest, len } => {
                                                assert(spec_parse_items(
                                                    buf@.skip(prev_cur),
                                                    n - k + 1,
                                                ) == (ItemsStep::Found {
                                                    items: seq![m@] + rest,
                                                    len: used + len,
                                                }));
                                                assert(list_view(prev_items, 0) + (seq![m@] + rest)
                                                    =~= list_view(items@, 0) + rest);
                                            },
                                            ItemsStep::More => {},
                                            ItemsStep::Bad => {},
                                        }
                                    }
                                },
                            }
                        }
                        proof {
                            assert(spec_parse_items(buf@.skip(cur as int), 0) == (ItemsStep::Found {
                                items: Seq::<MsgModel>::empty(),
                                len: 0,
                            }));
                            assert(list_view(items@, 0) + Seq::<MsgModel>::empty() =~= list_view(
                                items@,
                                0,
                            ));
                            lemma_list_view_index(items@, 0);
                            lemma_bounded_items_index(list_view(items@, 0), 0);
                        }
                        Result::Ok(Option::Some((Resp::Array(items), cur - pos)))
                    }
                },
            }
        },
    }
}

/// A longer digit run never has a smaller value.
pub proof fn lemma_digits_val_mono(s: Seq<u8>, j: int)
    requires
        0 <= j <= s.len(),
    ensures
        digits_val(s.take(j)) <= digits_val(s),
    decreases s.len(),
{
    if j < s.len() {
        lemma_digits_val_mono(s.drop_last(), j);
        assert(s.drop_last().take(j) =~= s.take(j));
    } else {
        assert(s.take(j) =~= s);
    }
}

/// A digit run encodes its own value: every byte of `spec_digits(n)` is
/// a digit, there is at least one, and reading them back yields `n`.
pub proof fn lemma_digits_roundtrip(n: nat)
    ensures
        spec_digits(n).len() >= 1,
        all_digits(spec_digits(n)),
        digits_val(spec_digits(n)) == n,
    decreases n,
{
    assert(digits_val(Seq::<u8>::empty()) == 0);
    if n < 10 {
        assert(seq![(48 + n) as u8].drop_last() =~= Seq::<u8>::empty());
    } else {
        lemma_digits_roundtrip(n / 10);
        let s = spec_digits(n / 10);
        let d = (48 + n % 10) as u8;
        assert(s.push(d).drop_last() =~= s);
        assert(s.push(d).last() == d);
        assert(digits_val(s.push(d)) == digits_val(s) * 10 + n % 10);
        assert forall|k: int| 0 <= k < s.push(d).len() implies is_digit(#[trigger] s.push(d)[k]) by {
            if k < s.len() {
                assert(s.push(d)[k] == s[k]);
            }
        }
    }
}

/// A wire numeral holds no CR or LF byte, is a numeral, and reads back
/// as its value.
pub proof fn lemma_int_bytes_numeral(i: int)
    ensures
        spec_int_bytes(i).len() >= 1,
        is_numeral(spec_int_bytes(i)),
        numeral_val(spec_int_bytes(i)) == i,
        forall|k: int|
            0 <= k < spec_int_bytes(i).len() ==> #[trigger] spec_int_bytes(i)[k] != CR
                && spec_int_bytes(i)[k] != LF,
{
    if i < 0 {
        lemma_digits_roundtrip((-i) as nat);
        assert((seq![45u8] + spec_digits((-i) as nat)).drop_first() =~= spec_digits((-i) as nat));
    } else {
        lemma_digits_roundtrip(i as nat);
    }
}

/// In `line + CRLF + rest` with no terminator inside `line`, the first
/// terminator sits exactly at the end of `line`.
pub proof fn lemma_line_crlf(line: Seq<u8>, rest: Seq<u8>)
    requires
        line_ok(line),
    ensures
        find_crlf(line + crlf() + rest) == Option::Some(line.len() as int),
{
    let b = line + crlf() + rest;
    assert(crlf_at(b, line.len() as int));
    assert forall|k: int| 0 <= k < line.len() implies !crlf_at(b, k) by {
        if k < line.len() - 1 {
            assert(!crlf_at(line, k));
        }
    }
    lemma_find_crlf_at(b, line.len() as int);
}

/// Any strict prefix of `line + CRLF` holds no terminator at all.
pub proof fn lemma_line_crlf_prefix(line: Seq<u8>, i: int)
    requires
        line_ok(line),
        0 <= i < line.len() + 2,
    ensures
        find_crlf((line + crlf()).take(i)) is None,
{
    let b = (line + crlf()).take(i);
    lemma_find_crlf(b);
    if find_crlf(b) is Some {
        let k = find_crlf(b)->Some_0;
        assert(crlf_at(b, k));
        if k < line.len() - 1 {
            assert(crlf_at(line, k));
        } else {
            assert(b[k + 1] == CR);
        }
    }
}

/// Round trip at the level of byte sequences: a decoder-producible
/// message, encoded and placed before any continuation of the stream,
/// decodes to itself, consuming exactly its own encoding.
#[verifier::rlimit(60)]
pub proof fn lemma_parse_encode(m: MsgModel, rest: Seq<u8>)
    requires
        bounded_msg(m),
    ensures
        spec_parse(spec_encode(m) + rest) == (ParseStep::Found {
            msg: m,
            len: spec_encode(m).len() as int,
        }),
    decreases m, 0int, 0int,
{
    let b = spec_encode(m) + rest;
    match m {
        MsgModel::Null => {
            let line = seq![45u8, 49u8];
            assert(line_ok(line));
            assert(b.drop_first() =~= line + crlf() + rest);
            lemma_line_crlf(line, rest);
            assert(b.drop_first().take(2) =~= line);
            assert(line.drop_first() =~= seq![49u8]);
            assert(seq![49u8].drop_last() =~= Seq::<u8>::empty());
            assert(digits_val(Seq::<u8>::empty()) == 0);
            assert(numeral_val(line) == -1);
        },
        MsgModel::SimpleString(s) => {
            assert(b.drop_first() =~= s + crlf() + rest);
            lemma_line_crlf(s, rest);
            assert(b.drop_first().take(s.len() as int) =~= s);
        },
        MsgModel::Error(s) => {
            assert(b.drop_first() =~= s + crlf() + rest);
            lemma_line_crlf(s, rest);
            assert(b.drop_first().take(s.len() as int) =~= s);
        },
        MsgModel::Integer(i) => {
            let line = spec_int_bytes(i);
            lemma_int_bytes_numeral(i);
            assert(line_ok(line));
            assert(b.drop_first() =~= line + crlf() + rest);
            lemma_line_crlf(line, rest);
            assert(b.drop_first().take(line.len() as int) =~= line);
        },
        MsgModel::BulkString(s) => {
            let line = spec_digits(s.len());
            lemma_digits_roundtrip(s.len());
            assert(line_ok(line));
            assert(b.drop_first() =~= line + crlf() + (s + crlf() + rest));
            lemma_line_crlf(line, s + crlf() + rest);
            assert(b.drop_first().take(line.len() as int) =~= line);
            let h = 3 + line.len() as int;
            let n = s.len() as int;
            assert(b[h + n] == CR);
            assert(b[h + n + 1] == LF);
            assert(b.skip(h).take(n) =~= s);
        },
        MsgModel::Array(items) => {
            let line = spec_digits(items.len());
            lemma_digits_roundtrip(items.len());
            assert(line_ok(line));
            let tail = spec_encode_items(items, 0) + rest;
            assert(b.drop_first() =~= line + crlf() + tail);
            lemma_line_crlf(line, tail);
            assert(b.drop_first().take(line.len() as int) =~= line);
            let h = 3 + line.len() as int;
            assert(b.skip(h) =~= tail);
            lemma_parse_encode_items(items, 0, rest);
            assert(items.skip(0) =~= items);
        },
    }
}

/// Round trip for a run of frames: the encodings of `items[from..]`,
/// before any continuation, decode to exactly those elements.
pub proof fn lemma_parse_encode_items(items: Seq<MsgModel>, from: int, rest: Seq<u8>)
    requires
        0 <= from <= items.len(),
        bounded_items(items, from),
    ensures
        spec_parse_items(spec_encode_items(items, from) + rest, items.len() - from)
            == (ItemsStep::Found {
            items: items.skip(from),
            len: spec_encode_items(items, from).len() as int,
        }),
    decreases items, 1int, items.len() - from,
{
    let b = spec_encode_items(items, from) + rest;
    if from == items.len() {
        assert(b =~= rest);
        assert(items.skip(from) =~= Seq::<MsgModel>::empty());
    } else {
        let head = spec_encode(items[from]);
        let tail = spec_encode_items(items, from + 1);
        assert(b =~= head + (tail + rest));
        lemma_parse_encode(items[from], tail + rest);
        lemma_encode_min_len(items[from]);
        assert(b.skip(head.len() as int) =~= tail + rest);
        lemma_parse_encode_items(items, from + 1, rest);
        assert(seq![items[from]] + items.skip(from + 1) =~= items.skip(from));
    }
}

/// Partial-read robustness at the level of byte sequences: any strict
/// prefix of a decoder-producible message's encoding asks for more
/// bytes — never an error, never a premature message.
#[verifier::rlimit(60)]
pub proof fn lemma_parse_encode_prefix(m: MsgModel, i: int)
    requires
        bounded_msg(m),
        0 <= i < spec_encode(m).len(),
    ensures
        spec_parse(spec_encode(m).take(i)) is More,
    decreases m, 0int, 0int,
{
    let b = spec_encode(m).take(i);
    if i == 0 {
        assert(b.len() == 0);
    } else {
        match m {
            MsgModel::Null => {
                let line = seq![45u8, 49u8];
                assert(line_ok(line));
                assert(b.drop_first() =~= (line + crlf()).take(i - 1));
                lemma_line_crlf_prefix(line, i - 1);
            },
            MsgModel::SimpleString(s) => {
                assert(b.drop_first() =~= (s + crlf()).take(i - 1));
                lemma_line_crlf_prefix(s, i - 1);
            },
            MsgModel::Error(s) => {
                assert(b.drop_first() =~= (s + crlf()).take(i - 1));
                lemma_line_crlf_prefix(s, i - 1);
            },
            MsgModel::Integer(v) => {
                let line = spec_int_bytes(v);
                lemma_int_bytes_numeral(v);
                assert(line_ok(line));
                assert(b.drop_first() =~= (line + crlf()).take(i - 1));
                lemma_line_crlf_prefix(line, i - 1);
            },
            MsgModel::BulkString(s) => {
                let line = spec_digits(s.len());
                lemma_digits_roundtrip(s.len());
                assert(line_ok(line));
                let h = 3 + line.len() as int;
                if i < h {
                    assert(b.drop_first() =~= (line + crlf()).take(i - 1));
                    lemma_line_crlf_prefix(line, i - 1);
                } else {
                    let tail = (s + crlf()).take(i - h);
                    assert(b.drop_first() =~= line + crlf() + tail);
                    lemma_line_crlf(line, tail);
                    assert(b.drop_first().take(line.len() as int) =~= line);
                    assert(b.len() < h + s.len() + 2);
                }
            },
            MsgModel::Array(items) => {
                let line = spec_digits(items.len());
                lemma_digits_roundtrip(items.len());
                assert(line_ok(line));
                let h = 3 + line.len() as int;
                if i < h {
                    assert(b.drop_first() =~= (line + crlf()).take(i - 1));
                    lemma_line_crlf_prefix(line, i - 1);
                } else {
                    let tail = spec_encode_items(items, 0).take(i - h);
                    assert(b.drop_first() =~= line + crlf() + tail);
                    lemma_line_crlf(line, tail);
                    assert(b.drop_first().take(line.len() as int) =~= line);
                    assert(b.skip(h) =~= tail);
                    lemma_parse_encode_items_prefix(items, 0, i - h);
                }
            },
        }
    }
}

/// Partial-read robustness for a run of frames: a strict prefix of the
/// encodings of `items[from..]` asks for more bytes.
pub proof fn lemma_parse_encode_items_prefix(items: Seq<MsgModel>, from: int, i: int)
    requires
        0 <= from <= items.len(),
        bounded_items(items, from),
        0 <= i < spec_encode_items(items, from).len(),
    ensures
        spec_parse_items(spec_encode_items(items, from).take(i), items.len() - from) is More,
    decreases items, 1int, items.len() - from,
{
    let head = spec_encode(items[from]);
    let tail = spec_encode_items(items, from + 1);
    let b = spec_encode_items(items, from).take(i);
    if i < head.len() {
        assert(b =~= head.take(i));
        lemma_parse_encode_prefix(items[from], i);
    } else {
        assert(b =~= head + tail.take(i - head.len()));
        lemma_parse_encode(items[from], tail.take(i - head.len()));
        lemma_encode_min_len(items[from]);
        assert(b.skip(head.len() as int) =~= tail.take(i - head.len()));
        lemma_parse_encode_items_prefix(items, from + 1, i - head.len());
    }
}

/// Round trip proper: encoding any decoder-producible message and
/// decoding the result yields the same message, whole.
pub proof fn lemma_encode_decode(m: MsgModel)
    requires
        bounded_msg(m),
    ensures
        spec_parse(spec_encode(m)) == (ParseStep::Found {
            msg: m,
            len: spec_encode(m).len() as int,
        }),
{
    lemma_parse_encode(m, Seq::empty());
    assert(spec_encode(m) + Seq::<u8>::empty() =~= spec_encode(m));
}

/// Every frame occupies at least three bytes on the wire.
pub proof fn lemma_encode_min_len(m: MsgModel)
    ensures
        spec_encode(m).len() >= 3,
{
    match m {
        MsgModel::Null => {},
        MsgModel::SimpleString(_) => {},
        MsgModel::Error(_) => {},
        MsgModel::Integer(i) => {
            lemma_int_bytes_numeral(i);
        },
        MsgModel::BulkString(s) => {
            lemma_digits_roundtrip(s.len());
        },
        MsgModel::Array(items) => {
            lemma_digits_roundtrip(items.len());
        },
    }
}

} // verus!

use vstd::prelude::*;

verus! {

/// The ASCII code of the decimal digit `d` (for `d < 10`).
pub open spec fn digit(d: nat) -> u8 {
    (48 + d) as u8
}

/// Decimal ASCII text of `n`, most significant digit first, no leading zeros.
pub open spec fn decimal(n: nat) -> Seq<u8>
    decreases n,
{
    if n < 10 {
        seq![digit(n)]
    } else {
        decimal(n / 10).push(digit(n % 10))
    }
}

/// `s` is a non-empty run of ASCII digits.
pub open spec fn is_decimal(s: Seq<u8>) -> bool {
    s.len() > 0 && forall|i: int| 0 <= i < s.len() ==> 48 <= #[trigger] s[i] <= 57
}

/// The number a run of ASCII digits denotes.
pub open spec fn decimal_value(s: Seq<u8>) -> nat
    decreases s.len(),
{
    if s.len() == 0 {
        0
    } else {
        decimal_value(s.drop_last()) * 10 + ((s.last() as int - 48) as nat)
    }
}

/// The value that the option-value text `s` carries, when it is valid.
pub open spec fn decimal_parse(s: Seq<u8>) -> Option<usize> {
    if is_decimal(s) && decimal_value(s) <= usize::MAX {
        Some(decimal_value(s) as usize)
    } else {
        None
    }
}

proof fn lemma_decimal_round_trip(n: nat)
    ensures
        is_decimal(decimal(n)),
        decimal_value(decimal(n)) == n,
    decreases n,
{
    if n >= 10 {
        lemma_decimal_round_trip(n / 10);
        let d = decimal(n / 10);
        let s = d.push(digit(n % 10));
        assert(s.drop_last() =~= d);
        assert forall|i: int| 0 <= i < s.len() implies 48 <= #[trigger] s[i] <= 57 by {
            if i < d.len() {
                assert(s[i] == d[i]);
            }
        }
        assert(s.last() as int - 48 == n % 10);
        assert(decimal_value(s) == (n / 10) * 10 + n % 10);
    } else {
        let s = seq![digit(n)];
        assert(s.drop_last() =~= Seq::<u8>::empty());
        assert(decimal_value(Seq::<u8>::empty()) == 0);
        assert(s.last() as int - 48 == n);
        assert(decimal_value(s) == n);
    }
}

proof fn lemma_decimal_prefix_le(s: Seq<u8>, k: int)
    requires
        0 <= k <= s.len(),
        forall|i: int| 0 <= i < s.len() ==> 48 <= #[trigger] s[i] <= 57,
    ensures
        decimal_value(s.subrange(0, k)) <= decimal_value(s),
    decreases s.len() - k,
{
    if k < s.len() {
        lemma_decimal_prefix_le(s, k + 1);
        let t = s.subrange(0, k + 1);
        assert(t.drop_last() =~= s.subrange(0, k));
        assert(48 <= t.last());
    } else {
        assert(s.subrange(0, k) =~= s);
    }
}

/// Reads an option value: decimal ASCII digits that fit a `usize`.
pub fn slice_to_usize(slice: &[u8]) -> (r: Option<usize>)
    ensures
        r == decimal_parse(slice@),
{
    let n = slice.len();
    if n == 0 {
        return None;
    }
    let mut value: usize = 0;
    let mut i: usize = 0;
    while i < n
        invariant
            n == slice@.len(),
            i <= n,
            value == decimal_value(slice@.subrange(0, i as int)),
            forall|j: int| 0 <= j < i ==> 48 <= #[trigger] slice@[j] <= 57,
        decreases n - i,
    {
        let c = slice[i];
        if c < 48 || c > 57 {
            assert(!is_decimal(slice@));
            return None;
        }
        let d = (c - 48) as usize;
        assert(slice@.subrange(0, i as int + 1).drop_last() =~= slice@.subrange(0, i as int));
        if value > (usize::MAX - d) / 10 {
            proof {
                assert(value * 10 + d > usize::MAX) by (nonlinear_arith)
                    requires
                        value > (usize::MAX - d) / 10,
                        d <= 9,
                ;
                if is_decimal(slice@) {
                    lemma_decimal_prefix_le(slice@, i as int + 1);
                }
            }
            return None;
        }
        proof {
            assert(value * 10 + d <= usize::MAX) by (nonlinear_arith)
                requires
                    value <= (usize::MAX - d) / 10,
                    d <= 9,
            ;
        }
        value = value * 10 + d;
        i = i + 1;
    }
    assert(slice@.subrange(0, n as int) =~= slice@);
    Some(value)
}

/// Appends the decimal text of `n` to `out`.
fn push_decimal(out: &mut Vec<u8>, n: usize)
    ensures
        final(out)@ == old(out)@ + decimal(n as nat),
    decreases n,
{
    if n >= 10 {
        push_decimal(out, n / 10);
    }
    out.push((48 + n % 10) as u8);
    proof {
        if n >= 10 {
            assert(old(out)@ + decimal(n as nat) =~= old(out)@ + decimal((n / 10) as nat) + seq![digit((n % 10) as nat)]);
        } else {
            assert(old(out)@ + decimal(n as nat) =~= old(out)@ + seq![digit(n as nat)]);
        }
    }
}


/// A negotiable transfer parameter, each carrying its numeric value.
#[derive(Clone, Copy, Debug, PartialEq, Eq, Structural)]
pub enum TftpOption {
    /// `tsize`: the total size of the resource in bytes.
    TransferSize(usize),
    /// `blksize`: the number of payload bytes in a full Data block.
    BlockSize(usize),
    /// `windowsize`: the number of Data blocks sent per acknowledgement.
    WindowSize(usize),
}

/// `tsize`
pub open spec fn tsize_name() -> Seq<u8> {
    seq![116u8, 115u8, 105u8, 122u8, 101u8]
}

/// `blksize`
pub open spec fn blksize_name() -> Seq<u8> {
    seq![98u8, 108u8, 107u8, 115u8, 105u8, 122u8, 101u8]
}

/// `windowsize`
pub open spec fn windowsize_name() -> Seq<u8> {
    seq![119u8, 105u8, 110u8, 100u8, 111u8, 119u8, 115u8, 105u8, 122u8, 101u8]
}

pub open spec fn option_name(o: TftpOption) -> Seq<u8> {
    match o {
        TftpOption::TransferSize(_) => tsize_name(),
        TftpOption::BlockSize(_) => blksize_name(),
        TftpOption::WindowSize(_) => windowsize_name(),
    }
}

pub open spec fn option_value(o: TftpOption) -> usize {
    match o {
        TftpOption::TransferSize(v) => v,
        TftpOption::BlockSize(v) => v,
        TftpOption::WindowSize(v) => v,
    }
}

/// Wire form of one option: name, NUL, decimal value, NUL.
pub open spec fn option_bytes(o: TftpOption) -> Seq<u8> {
    option_name(o).push(0u8) + decimal(option_value(o) as nat).push(0u8)
}

/// Wire form of a list of options, in order.
pub open spec fn options_bytes(os: Seq<TftpOption>) -> Seq<u8>
    decreases os.len(),
{
    if os.len() == 0 {
        Seq::empty()
    } else {
        option_bytes(os[0]) + options_bytes(os.skip(1))
    }
}

/// The option a name/value pair stands for: `None` when the pair is
/// malformed (a known name with a value that is not a decimal `usize`),
/// `Some(None)` when the name is not one this engine knows (skipped).
pub open spec fn read_option(name: Seq<u8>, value: Seq<u8>) -> Option<Option<TftpOption>> {
    if name == tsize_name() {
        match decimal_parse(value) {
            Some(v) => Some(Some(TftpOption::TransferSize(v))),
            None => None,
        }
    } else if name == blksize_name() {
        match decimal_parse(value) {
            Some(v) => Some(Some(TftpOption::BlockSize(v))),
            None => None,
        }
    } else if name == windowsize_name() {
        match decimal_parse(value) {
            Some(v) => Some(Some(TftpOption::WindowSize(v))),
            None => None,
        }
    } else {
        Some(None)
    }
}

/// `i` is the first NUL byte of `b` at or after `from`.
pub open spec fn is_first_nul(b: Seq<u8>, from: int, i: int) -> bool {
    &&& 0 <= from <= i < b.len()
    &&& b[i] == 0
    &&& forall|j: int| from <= j < i ==> #[trigger] b[j] != 0
}

/// The position of the first NUL byte of `b` at or after `from`, if any.
pub open spec fn nul_from(b: Seq<u8>, from: int) -> Option<int> {
    if exists|i: int| is_first_nul(b, from, i) {
        Some(choose|i: int| is_first_nul(b, from, i))
    } else {
        None
    }
}

proof fn lemma_first_nul_unique(b: Seq<u8>, from: int, i: int, k: int)
    requires
        is_first_nul(b, from, i),
        is_first_nul(b, from, k),
    ensures
        i == k,
{
    if i < k {
        assert(b[i] != 0);
    } else if k < i {
        assert(b[k] != 0);
    }
}

proof fn lemma_nul_from_is(b: Seq<u8>, from: int, i: int)
    requires
        is_first_nul(b, from, i),
    ensures
        nul_from(b, from) == Some(i),
{
    let k = choose|k: int| is_first_nul(b, from, k);
    lemma_first_nul_unique(b, from, i, k);
}

/// Finds the first NUL byte of `b` at or after `from`.
fn find_nul(b: &[u8], from: usize) -> (r: Option<usize>)
    requires
        from <= b@.len(),
    ensures
        match r {
            Some(i) => nul_from(b@, from as int) == Some(i as int),
            None => nul_from(b@, from as int) is None,
        },
{
    let mut i: usize = from;
    while i < b.len()
        invariant
            from <= i <= b@.len(),
            forall|j: int| from <= j < i ==> #[trigger] b@[j] != 0,
        decreases b@.len() - i,
    {
        if b[i] == 0 {
            proof {
                lemma_nul_from_is(b@, from as int, i as int);
            }
            return Some(i);
        }
        i = i + 1;
    }
    assert(!exists|k: int| is_first_nul(b@, from as int, k)) by {
        assert forall|k: int| !is_first_nul(b@, from as int, k) by {
            if is_first_nul(b@, from as int, k) {
                assert(b@[k] != 0);
            }
        }
    }
    None
}

/// The options of a Request or OptionAcknowledgement whose option area
/// starts at `p` in `b`: consecutive name/value pairs, each field ended by
/// NUL, up to the end of the buffer. Unknown names are skipped.
pub open spec fn options_from(b: Seq<u8>, p: int) -> Option<Seq<TftpOption>>
    decreases b.len() - p,
{
    if p < 0 || p >= b.len() {
        Some(Seq::empty())
    } else {
        match nul_from(b, p) {
            None => None,
            Some(i) => match nul_from(b, i + 1) {
                None => None,
                Some(j) => match read_option(b.subrange(p, i), b.subrange(i + 1, j)) {
                    None => None,
                    Some(field) => match options_from(b, j + 1) {
                        None => None,
                        Some(rest) => match field {
                            Some(o) => Some(seq![o] + rest),
                            None => Some(rest),
                        },
                    },
                },
            },
        }
    }
}


fn tsize_bytes() -> (r: Vec<u8>)
    ensures
        r@ == tsize_name(),
{
    let r = vec![116u8, 115u8, 105u8, 122u8, 101u8];
    assert(r@ =~= tsize_name());
    r
}

fn blksize_bytes() -> (r: Vec<u8>)
    ensures
        r@ == blksize_name(),
{
    let r = vec![98u8, 108u8, 107u8, 115u8, 105u8, 122u8, 101u8];
    assert(r@ =~= blksize_name());
    r
}

fn windowsize_bytes() -> (r: Vec<u8>)
    ensures
        r@ == windowsize_name(),
{
    let r = vec![119u8, 105u8, 110u8, 100u8, 111u8, 119u8, 115u8, 105u8, 122u8, 101u8];
    assert(r@ =~= windowsize_name());
    r
}

fn bytes_eq(a: &[u8], b: &[u8]) -> (r: bool)
    ensures
        r == (a@ == b@),
{
    if a.len() != b.len() {
        return false;
    }
    let mut i: usize = 0;
    while i < a.len()
        invariant
            a@.len() == b@.len(),
            i <= a@.len(),
            forall|j: int| 0 <= j < i ==> a@[j] == b@[j],
        decreases a@.len() - i,
    {
        if a[i] != b[i] {
            return false;
        }
        i = i + 1;
    }
    assert(a@ =~= b@);
    true
}

/// Exec counterpart of `read_option`.
fn parse_option(name: &[u8], value: &[u8]) -> (r: Option<Option<TftpOption>>)
    ensures
        r == read_option(name@, value@),
{
    if bytes_eq(name, tsize_bytes().as_slice()) {
        match slice_to_usize(value) {
            Some(v) => Some(Some(TftpOption::TransferSize(v))),
            None => None,
        }
    } else if bytes_eq(name, blksize_bytes().as_slice()) {
        match slice_to_usize(value) {
            Some(v) => Some(Some(TftpOption::BlockSize(v))),
            None => None,
        }
    } else if bytes_eq(name, windowsize_bytes().as_slice()) {
        match slice_to_usize(value) {
            Some(v) => Some(Some(TftpOption::WindowSize(v))),
            None => None,
        }
    } else {
        Some(None)
    }
}

impl TftpOption {
    /// Reads an option area: the name/value pairs that end a Request or
    /// make up an OptionAcknowledgement. `None` when it is malformed.
    pub fn parse(data: &[u8]) -> (r: Option<Vec<TftpOption>>)
        ensures
            match r {
                Some(os) => options_from(data@, 0) == Some(os@),
                None => options_from(data@, 0) is None,
            },
    {
        TftpOption::parse_at(data, 0)
    }

    /// Reads the option area that starts at `start` in `data`.
    fn parse_at(data: &[u8], start: usize) -> (r: Option<Vec<TftpOption>>)
        requires
            start <= data@.len(),
        ensures
            match r {
                Some(os) => options_from(data@, start as int) == Some(os@),
                None => options_from(data@, start as int) is None,
            },
    {
        let mut options: Vec<TftpOption> = Vec::new();
        let mut pos: usize = start;
        while pos < data.len()
            invariant
                start <= pos <= data@.len(),
                options_from(data@, start as int) == match options_from(data@, pos as int) {
                    Some(rest) => Some(options@ + rest),
                    None => None,
                },
            decreases data@.len() - pos,
        {
            let i = match find_nul(data, pos) {
                Some(i) => i,
                None => return None,
            };
            let j = match find_nul(data, i + 1) {
                Some(j) => j,
                None => return None,
            };
            let field = match parse_option(&data[pos..i], &data[i + 1..j]) {
                Some(f) => f,
                None => return None,
            };
            let ghost old_options = options@;
            proof {
                if let Some(rest) = options_from(data@, j as int + 1) {
                    if let Some(o) = field {
                        assert(old_options.push(o) + rest =~= old_options + (seq![o] + rest));
                    }
                }
            }
            if let Some(o) = field {
                options.push(o);
            }
            pos = j + 1;
        }
        assert(options@ + Seq::<TftpOption>::empty() =~= options@);
        Some(options)
    }
}


pub const OPCODE_READ_REQUEST: u8 = 1;
pub const OPCODE_DATA: u8 = 3;
pub const OPCODE_ACKNOWLEDGEMENT: u8 = 4;
pub const OPCODE_ERROR: u8 = 5;
pub const OPCODE_OPTION_ACKNOWLEDGEMENT: u8 = 6;

/// A read request: resource name, transfer mode and proposed options.
pub struct ReadRequest {
    pub filename: Vec<u8>,
    pub mode: Vec<u8>,
    pub options: Vec<TftpOption>,
}

/// One block of the resource.
pub struct Data {
    pub block: u16,
    pub data: Vec<u8>,
}

/// The client's receipt for a block (block 0 answers an OptionAcknowledgement).
pub struct Acknowledgement {
    pub block: u16,
}

/// The options the server accepts, in the order the client proposed them.
pub struct OptionAcknowledgement {
    pub options: Vec<TftpOption>,
}

/// An error report: numeric code and human-readable message.
pub struct ErrorPacket {
    pub code: u16,
    pub message: Vec<u8>,
}

/// A decoded packet.
pub enum Tftp {
    ReadRequest(ReadRequest),
    Acknowledgement(Acknowledgement),
    OptionAcknowledgement(OptionAcknowledgement),
    Data(Data),
    Error(ErrorPacket),
}

/// Mathematical model of a packet.
pub enum PacketView {
    Request { filename: Seq<u8>, mode: Seq<u8>, options: Seq<TftpOption> },
    Data { block: u16, payload: Seq<u8> },
    Ack { block: u16 },
    OptionAck { options: Seq<TftpOption> },
    Error { code: u16, message: Seq<u8> },
}

impl View for Tftp {
    type V = PacketView;

    open spec fn view(&self) -> PacketView {
        match self {
            Tftp::ReadRequest(r) => PacketView::Request {
                filename: r.filename@,
                mode: r.mode@,
                options: r.options@,
            },
            Tftp::Acknowledgement(a) => PacketView::Ack { block: a.block },
            Tftp::OptionAcknowledgement(o) => PacketView::OptionAck { options: o.options@ },
            Tftp::Data(d) => PacketView::Data { block: d.block, payload: d.data@ },
            Tftp::Error(e) => PacketView::Error { code: e.code, message: e.message@ },
        }
    }
}

/// Why a datagram could not be decoded.
#[derive(Clone, Copy, Debug, PartialEq, Eq, Structural)]
pub enum DecodeError {
    /// A truncated field, a missing terminator or a bad option value.
    Malformed,
    /// An opcode that is not accepted here.
    UnexpectedOpCode,
}

/// Big-endian form of a 16-bit number.
pub open spec fn be16(n: u16) -> Seq<u8> {
    seq![(n / 256) as u8, (n % 256) as u8]
}

pub open spec fn be16_at(b: Seq<u8>, i: int) -> u16 {
    (b[i] as int * 256 + b[i + 1] as int) as u16
}

pub open spec fn has_no_nul(s: Seq<u8>) -> bool {
    forall|i: int| 0 <= i < s.len() ==> #[trigger] s[i] != 0
}

/// The packets that can be put on the wire and read back: strings
/// that are NUL-terminated on the wire hold no NUL themselves.
pub open spec fn well_formed(p: PacketView) -> bool {
    match p {
        PacketView::Request { filename, mode, .. } => has_no_nul(filename) && has_no_nul(mode),
        PacketView::Error { message, .. } => has_no_nul(message),
        _ => true,
    }
}

/// Wire form of a packet.
pub open spec fn encode_spec(p: PacketView) -> Seq<u8> {
    match p {
        PacketView::Request { filename, mode, options } => seq![0u8, OPCODE_READ_REQUEST]
            + filename.push(0u8) + mode.push(0u8) + options_bytes(options),
        PacketView::Data { block, payload } => seq![0u8, OPCODE_DATA] + be16(block) + payload,
        PacketView::Ack { block } => seq![0u8, OPCODE_ACKNOWLEDGEMENT] + be16(block),
        PacketView::OptionAck { options } => seq![0u8, OPCODE_OPTION_ACKNOWLEDGEMENT]
            + options_bytes(options),
        PacketView::Error { code, message } => seq![0u8, OPCODE_ERROR] + be16(code)
            + message.push(0u8),
    }
}

/// What a datagram decodes to.
pub open spec fn decode_spec(b: Seq<u8>) -> Result<PacketView, DecodeError> {
    if b.len() < 2 {
        Err(DecodeError::Malformed)
    } else if b[0] != 0 {
        Err(DecodeError::UnexpectedOpCode)
    } else if b[1] == OPCODE_READ_REQUEST {
        match nul_from(b, 2) {
            None => Err(DecodeError::Malformed),
            Some(i) => match nul_from(b, i + 1) {
                None => Err(DecodeError::Malformed),
                Some(j) => match options_from(b, j + 1) {
                    None => Err(DecodeError::Malformed),
                    Some(options) => Ok(
                        PacketView::Request {
                            filename: b.subrange(2, i),
                            mode: b.subrange(i + 1, j),
                            options,
                        },
                    ),
                },
            },
        }
    } else if b[1] == OPCODE_DATA {
        if b.len() < 4 {
            Err(DecodeError::Malformed)
        } else {
            Ok(PacketView::Data { block: be16_at(b, 2), payload: b.subrange(4, b.len() as int) })
        }
    } else if b[1] == OPCODE_ACKNOWLEDGEMENT {
        if b.len() != 4 {
            Err(DecodeError::Malformed)
        } else {
            Ok(PacketView::Ack { block: be16_at(b, 2) })
        }
    } else if b[1] == OPCODE_ERROR {
        if b.len() < 4 {
            Err(DecodeError::Malformed)
        } else {
            match nul_from(b, 4) {
                Some(i) => if i == b.len() - 1 {
                    Ok(PacketView::Error { code: be16_at(b, 2), message: b.subrange(4, i) })
                } else {
                    Err(DecodeError::Malformed)
                },
                None => Err(DecodeError::Malformed),
            }
        }
    } else if b[1] == OPCODE_OPTION_ACKNOWLEDGEMENT {
        match options_from(b, 2) {
            None => Err(DecodeError::Malformed),
            Some(options) => Ok(PacketView::OptionAck { options }),
        }
    } else {
        Err(DecodeError::UnexpectedOpCode)
    }
}

/// Packets a server accepts from a client: a Request, an Acknowledgement
/// or an Error. Data and OptionAcknowledgement travel only the other way.
pub open spec fn decode_from_client_spec(b: Seq<u8>) -> Result<PacketView, DecodeError> {
    match decode_spec(b) {
        Ok(PacketView::Data { .. }) => Err(DecodeError::UnexpectedOpCode),
        Ok(PacketView::OptionAck { .. }) => Err(DecodeError::UnexpectedOpCode),
        r => r,
    }
}

fn copy_range(b: &[u8], lo: usize, hi: usize) -> (r: Vec<u8>)
    requires
        lo <= hi <= b@.len(),
    ensures
        r@ == b@.subrange(lo as int, hi as int),
{
    let mut r: Vec<u8> = Vec::new();
    let mut i: usize = lo;
    while i < hi
        invariant
            lo <= i <= hi <= b@.len(),
            r@ == b@.subrange(lo as int, i as int),
        decreases hi - i,
    {
        r.push(b[i]);
        assert(r@ =~= b@.subrange(lo as int, i as int + 1));
        i = i + 1;
    }
    r
}

impl Tftp {
    /// Decodes a datagram into a packet of any of the five kinds.
    pub fn parse(data: &[u8]) -> (r: Result<Tftp, DecodeError>)
        ensures
            match r {
                Ok(p) => decode_spec(data@) == Ok::<PacketView, DecodeError>(p@),
                Err(e) => decode_spec(data@) == Err::<PacketView, DecodeError>(e),
            },
    {
        let n = data.len();
        if n < 2 {
            return Err(DecodeError::Malformed);
        }
        if data[0] != 0 {
            return Err(DecodeError::UnexpectedOpCode);
        }
        let op = data[1];
        if op == OPCODE_READ_REQUEST {
            let i = match find_nul(data, 2) {
                Some(i) => i,
                None => return Err(DecodeError::Malformed),
            };
            let j = match find_nul(data, i + 1) {
                Some(j) => j,
                None => return Err(DecodeError::Malformed),
            };
            let options = match TftpOption::parse_at(data, j + 1) {
                Some(os) => os,
                None => return Err(DecodeError::Malformed),
            };
            Ok(Tftp::ReadRequest(ReadRequest {
                filename: copy_range(data, 2, i),
                mode: copy_range(data, i + 1, j),
                options,
            }))
        } else if op == OPCODE_DATA {
            if n < 4 {
                return Err(DecodeError::Malformed);
            }
            let block = (data[2] as u16) * 256 + (data[3] as u16);
            Ok(Tftp::Data(Data { block, data: copy_range(data, 4, n) }))
        } else if op == OPCODE_ACKNOWLEDGEMENT {
            if n != 4 {
                return Err(DecodeError::Malformed);
            }
            let block = (data[2] as u16) * 256 + (data[3] as u16);
            Ok(Tftp::Acknowledgement(Acknowledgement { block }))
        } else if op == OPCODE_ERROR {
            if n < 4 {
                return Err(DecodeError::Malformed);
            }
            let code = (data[2] as u16) * 256 + (data[3] as u16);
            match find_nul(data, 4) {
                Some(i) => if i == n - 1 {
                    Ok(Tftp::Error(ErrorPacket { code, message: copy_range(data, 4, i) }))
                } else {
                    Err(DecodeError::Malformed)
                },
                None => Err(DecodeError::Malformed),
            }
        } else if op == OPCODE_OPTION_ACKNOWLEDGEMENT {
            match TftpOption::parse_at(data, 2) {
                Some(options) => Ok(Tftp::OptionAcknowledgement(OptionAcknowledgement { options })),
                None => Err(DecodeError::Malformed),
            }
        } else {
            Err(DecodeError::UnexpectedOpCode)
        }
    }

    /// Decodes a datagram received from a client.
    pub fn parse_from_client(data: &[u8]) -> (r: Result<Tftp, DecodeError>)
        ensures
            match r {
                Ok(p) => decode_from_client_spec(data@) == Ok::<PacketView, DecodeError>(p@),
                Err(e) => decode_from_client_spec(data@) == Err::<PacketView, DecodeError>(e),
            },
    {
        match Tftp::parse(data) {
            Ok(Tftp::Data(_)) => Err(DecodeError::UnexpectedOpCode),
            Ok(Tftp::OptionAcknowledgement(_)) => Err(DecodeError::UnexpectedOpCode),
            r => r,
        }
    }
}


proof fn lemma_options_bytes_push(os: Seq<TftpOption>, o: TftpOption)
    ensures
        options_bytes(os.push(o)) == options_bytes(os) + option_bytes(o),
    decreases os.len(),
{
    if os.len() == 0 {
        assert(os.push(o).skip(1) =~= Seq::<TftpOption>::empty());
        assert(options_bytes(os.push(o)) =~= option_bytes(o) + options_bytes(Seq::<TftpOption>::empty()));
        assert(options_bytes(os) + option_bytes(o) =~= option_bytes(o));
    } else {
        lemma_options_bytes_push(os.skip(1), o);
        assert(os.push(o).skip(1) =~= os.skip(1).push(o));
        assert(os.push(o)[0] == os[0]);
        assert(options_bytes(os.push(o)) =~= option_bytes(os[0]) + (options_bytes(os.skip(1)) + option_bytes(o)));
    }
}

fn push_slice(out: &mut Vec<u8>, s: &[u8])
    ensures
        final(out)@ == old(out)@ + s@,
{
    let mut i: usize = 0;
    while i < s.len()
        invariant
            i <= s@.len(),
            out@ == old(out)@ + s@.subrange(0, i as int),
        decreases s@.len() - i,
    {
        out.push(s[i]);
        assert(out@ =~= old(out)@ + s@.subrange(0, i as int + 1));
        i = i + 1;
    }
    assert(s@.subrange(0, s@.len() as int) =~= s@);
}

fn push_be16(out: &mut Vec<u8>, n: u16)
    ensures
        final(out)@ == old(out)@ + be16(n),
{
    out.push((n / 256) as u8);
    out.push((n % 256) as u8);
    assert(out@ =~= old(out)@ + be16(n));
}

impl TftpOption {
    /// Appends the wire form of this option to `out`.
    pub fn serialise(&self, out: &mut Vec<u8>)
        ensures
            final(out)@ == old(out)@ + option_bytes(*self),
    {
        let (name, value) = match self {
            TftpOption::TransferSize(v) => (tsize_bytes(), *v),
            TftpOption::BlockSize(v) => (blksize_bytes(), *v),
            TftpOption::WindowSize(v) => (windowsize_bytes(), *v),
        };
        push_slice(out, name.as_slice());
        out.push(0u8);
        push_decimal(out, value);
        out.push(0u8);
        assert(out@ =~= old(out)@ + option_bytes(*self));
    }
}

fn push_options(out: &mut Vec<u8>, options: &Vec<TftpOption>)
    ensures
        final(out)@ == old(out)@ + options_bytes(options@),
{
    let mut i: usize = 0;
    while i < options.len()
        invariant
            i <= options@.len(),
            out@ == old(out)@ + options_bytes(options@.take(i as int)),
        decreases options@.len() - i,
    {
        let ghost before = out@;
        options[i].serialise(out);
        proof {
            assert(options@.take(i as int + 1) =~= options@.take(i as int).push(options@[i as int]));
            lemma_options_bytes_push(options@.take(i as int), options@[i as int]);
            assert(out@ =~= old(out)@ + options_bytes(options@.take(i as int + 1)));
        }
        i = i + 1;
    }
    assert(options@.take(options@.len() as int) =~= options@);
}

impl Tftp {
    /// Encodes this packet for the wire.
    pub fn serialise(&self) -> (r: Vec<u8>)
        ensures
            r@ == encode_spec(self@),
    {
        let mut out: Vec<u8> = Vec::new();
        out.push(0u8);
        match self {
            Tftp::ReadRequest(req) => {
                out.push(OPCODE_READ_REQUEST);
                push_slice(&mut out, req.filename.as_slice());
                out.push(0u8);
                push_slice(&mut out, req.mode.as_slice());
                out.push(0u8);
                push_options(&mut out, &req.options);
            },
            Tftp::Data(d) => {
                out.push(OPCODE_DATA);
                push_be16(&mut out, d.block);
                push_slice(&mut out, d.data.as_slice());
            },
            Tftp::Acknowledgement(a) => {
                out.push(OPCODE_ACKNOWLEDGEMENT);
                push_be16(&mut out, a.block);
            },
            Tftp::OptionAcknowledgement(o) => {
                out.push(OPCODE_OPTION_ACKNOWLEDGEMENT);
                push_options(&mut out, &o.options);
            },
            Tftp::Error(e) => {
                out.push(OPCODE_ERROR);
                push_be16(&mut out, e.code);
                push_slice(&mut out, e.message.as_slice());
                out.push(0u8);
            },
        }
        assert(out@ =~= encode_spec(self@));
        out
    }
}


proof fn lemma_nul_after(b: Seq<u8>, from: int, s: Seq<u8>)
    requires
        0 <= from,
        from + s.len() < b.len(),
        b.subrange(from, from + s.len()) == s,
        has_no_nul(s),
        b[from + s.len()] == 0,
    ensures
        nul_from(b, from) == Some(from + s.len()),
{
    assert forall|j: int| from <= j < from + s.len() implies #[trigger] b[j] != 0 by {
        assert(b[j] == b.subrange(from, from + s.len())[j - from]);
    }
    lemma_nul_from_is(b, from, from + s.len());
}

proof fn lemma_option_read_back(pre: Seq<u8>, o: TftpOption, rest: Seq<u8>)
    ensures
        ({
            let b = pre + option_bytes(o) + rest;
            let p = pre.len() as int;
            let i = p + option_name(o).len() as int;
            let j = i + 1 + decimal(option_value(o) as nat).len() as int;
            &&& nul_from(b, p) == Some(i)
            &&& nul_from(b, i + 1) == Some(j)
            &&& read_option(b.subrange(p, i), b.subrange(i + 1, j)) == Some(Some(o))
            &&& j + 1 == p + option_bytes(o).len()
        }),
{
    let b = pre + option_bytes(o) + rest;
    let name = option_name(o);
    let v = option_value(o);
    let dec = decimal(v as nat);
    let p = pre.len() as int;
    let i = p + name.len() as int;
    let j = i + 1 + dec.len() as int;
    lemma_decimal_round_trip(v as nat);
    assert(b.subrange(p, i) =~= name);
    assert(b.subrange(i + 1, j) =~= dec);
    assert(b[i] == 0);
    assert(b[j] == 0);
    assert(has_no_nul(name));
    assert(has_no_nul(dec)) by {
        assert forall|k: int| 0 <= k < dec.len() implies #[trigger] dec[k] != 0 by {
            assert(48 <= dec[k]);
        }
    }
    lemma_nul_after(b, p, name);
    lemma_nul_after(b, i + 1, dec);
    assert(tsize_name().len() != blksize_name().len());
    assert(tsize_name().len() != windowsize_name().len());
    assert(blksize_name().len() != windowsize_name().len());
}

proof fn lemma_options_round_trip(pre: Seq<u8>, os: Seq<TftpOption>)
    ensures
        options_from(pre + options_bytes(os), pre.len() as int) == Some(os),
    decreases os.len(),
{
    let b = pre + options_bytes(os);
    if os.len() == 0 {
        assert(b =~= pre);
    } else {
        let o = os[0];
        let tail = os.skip(1);
        let pre2 = pre + option_bytes(o);
        assert(b =~= pre + option_bytes(o) + options_bytes(tail));
        lemma_option_read_back(pre, o, options_bytes(tail));
        assert(b =~= pre2 + options_bytes(tail));
        lemma_options_round_trip(pre2, tail);
        assert(seq![o] + tail =~= os);
    }
}

proof fn lemma_request_round_trip(filename: Seq<u8>, mode: Seq<u8>, options: Seq<TftpOption>)
    requires
        has_no_nul(filename),
        has_no_nul(mode),
    ensures
        ({
            let p = PacketView::Request { filename, mode, options };
            decode_spec(encode_spec(p)) == Ok::<PacketView, DecodeError>(p)
        }),
{
    let p = PacketView::Request { filename, mode, options };
    let b = encode_spec(p);
    let pre = seq![0u8, OPCODE_READ_REQUEST] + filename.push(0u8) + mode.push(0u8);
    assert(b =~= pre + options_bytes(options));
    let i = 2 + filename.len() as int;
    let j = i + 1 + mode.len() as int;
    assert(b.subrange(2, i) =~= filename);
    assert(b.subrange(i + 1, j) =~= mode);
    assert(b[i] == 0);
    assert(b[j] == 0);
    lemma_nul_after(b, 2, filename);
    lemma_nul_after(b, i + 1, mode);
    lemma_options_round_trip(pre, options);
    assert(pre.len() == j + 1);
}

proof fn lemma_error_round_trip(code: u16, message: Seq<u8>)
    requires
        has_no_nul(message),
    ensures
        ({
            let p = PacketView::Error { code, message };
            decode_spec(encode_spec(p)) == Ok::<PacketView, DecodeError>(p)
        }),
{
    let b = encode_spec(PacketView::Error { code, message });
    let i = 4 + message.len() as int;
    assert(b.subrange(4, i) =~= message);
    assert(b[i] == 0);
    lemma_nul_after(b, 4, message);
}

proof fn lemma_option_ack_round_trip(options: Seq<TftpOption>)
    ensures
        ({
            let p = PacketView::OptionAck { options };
            decode_spec(encode_spec(p)) == Ok::<PacketView, DecodeError>(p)
        }),
{
    let b = encode_spec(PacketView::OptionAck { options });
    let pre = seq![0u8, OPCODE_OPTION_ACKNOWLEDGEMENT];
    assert(b =~= pre + options_bytes(options));
    lemma_options_round_trip(pre, options);
}

/// Every well-formed packet reads back as itself: decoding its encoding
/// gives the same packet.
pub proof fn lemma_round_trip(p: PacketView)
    requires
        well_formed(p),
    ensures
        decode_spec(encode_spec(p)) == Ok::<PacketView, DecodeError>(p),
{
    match p {
        PacketView::Request { filename, mode, options } => {
            lemma_request_round_trip(filename, mode, options);
        },
        PacketView::Data { block, payload } => {
            let b = encode_spec(p);
            assert(b.subrange(4, b.len() as int) =~= payload);
        },
        PacketView::Ack { block } => {},
        PacketView::OptionAck { options } => {
            lemma_option_ack_round_trip(options);
        },
        PacketView::Error { code, message } => {
            lemma_error_round_trip(code, message);
        },
    }
}

} // verus!

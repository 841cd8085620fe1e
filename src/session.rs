use vstd::prelude::*;
use crate::codec::{
    TftpOption, Tftp, PacketView, Data, Acknowledgement, OptionAcknowledgement, ErrorPacket,
    ReadRequest, encode_spec, decode_from_client_spec,
};
use crate::negotiation::{
    negotiate, accepted_options, negotiated_block_size, negotiated_window_size,
    DEFAULT_BLOCK_SIZE, DEFAULT_WINDOW_SIZE, MAX_BLOCK_SIZE, MAX_WINDOW_SIZE,
};

verus! {

/// The highest block number the 16-bit wire field can carry.
pub const MAX_BLOCKS: usize = 65535;

pub const ERROR_NOT_DEFINED: u16 = 0;
pub const ERROR_FILE_NOT_FOUND: u16 = 1;
pub const ERROR_ILLEGAL_OPERATION: u16 = 4;

/// Lifecycle of one client's transfer.
#[derive(Clone, Copy, Debug, PartialEq, Eq, Structural)]
pub enum SessionState {
    /// Nothing received yet.
    AwaitingRequest,
    /// A Request was accepted; its resource is being loaded.
    AwaitingResource,
    /// The OptionAcknowledgement went out; waiting for Acknowledgement 0.
    Negotiated,
    /// Data windows are in flight.
    Transferring,
    /// The terminal block was acknowledged.
    Completed,
    /// Ended by an error, bad input or an exhausted retry budget.
    Aborted,
}

/// Server-side state of one client's transfer.
pub struct Session {
    /// The resource content, once loaded.
    pub data: Vec<u8>,
    pub block_size: usize,
    pub file_size: usize,
    pub window_size: usize,
    pub state: SessionState,
    /// The options of the Request whose resource is being loaded.
    pub pending: Vec<TftpOption>,
    /// The highest block number sent so far (0 before any Data).
    pub last_sent: u16,
    /// The datagrams last sent, kept for retransmission.
    pub window: Vec<Vec<u8>>,
    /// Consecutive timeouts since the last progress.
    pub retries: u32,
    pub last_activity: u64,
}

/// Mathematical model of a session.
pub struct SessionView {
    pub data: Seq<u8>,
    pub block_size: usize,
    pub file_size: usize,
    pub window_size: usize,
    pub state: SessionState,
    pub pending: Seq<TftpOption>,
    pub last_sent: u16,
    pub window: Seq<Seq<u8>>,
    pub retries: u32,
    pub last_activity: u64,
}

pub open spec fn datagrams(w: Seq<Vec<u8>>) -> Seq<Seq<u8>> {
    Seq::new(w.len(), |i: int| w[i]@)
}

impl View for Session {
    type V = SessionView;

    open spec fn view(&self) -> SessionView {
        SessionView {
            data: self.data@,
            block_size: self.block_size,
            file_size: self.file_size,
            window_size: self.window_size,
            state: self.state,
            pending: self.pending@,
            last_sent: self.last_sent,
            window: datagrams(self.window@),
            retries: self.retries,
            last_activity: self.last_activity,
        }
    }
}

/// Number of Data blocks of a transfer: the full blocks, then one shorter
/// (possibly empty) terminal block.
pub open spec fn block_count(file_size: usize, block_size: usize) -> int {
    file_size as int / block_size as int + 1
}

/// Payload of block `k` (numbered from 1).
pub open spec fn block_payload(data: Seq<u8>, block_size: usize, k: int) -> Seq<u8> {
    let start = (k - 1) * block_size;
    let end = if k * block_size <= data.len() { k * block_size } else { data.len() as int };
    data.subrange(start, end)
}

pub open spec fn is_live(s: SessionState) -> bool {
    s != SessionState::Completed && s != SessionState::Aborted
}

pub open spec fn is_transferring(s: SessionState) -> bool {
    s == SessionState::Negotiated || s == SessionState::Transferring
}

/// The internal invariant of a session.
pub open spec fn wf(v: SessionView) -> bool {
    &&& v.data.len() == v.file_size
    &&& 1 <= v.block_size <= MAX_BLOCK_SIZE
    &&& 1 <= v.window_size <= MAX_WINDOW_SIZE
    &&& (v.state == SessionState::Negotiated || v.state == SessionState::Transferring
        || v.state == SessionState::Completed) ==> {
        &&& block_count(v.file_size, v.block_size) <= MAX_BLOCKS
        &&& v.last_sent <= block_count(v.file_size, v.block_size)
        &&& v.window.len() <= v.window_size
    }
}

pub open spec fn fresh_view() -> SessionView {
    SessionView {
        data: Seq::empty(),
        block_size: DEFAULT_BLOCK_SIZE,
        file_size: 0,
        window_size: DEFAULT_WINDOW_SIZE,
        state: SessionState::AwaitingRequest,
        pending: Seq::empty(),
        last_sent: 0,
        window: Seq::empty(),
        retries: 0,
        last_activity: 0,
    }
}

proof fn lemma_block_start(k: int, s: int, b: int)
    requires
        1 <= k <= s / b + 1,
        b >= 1,
        s >= 0,
    ensures
        0 <= (k - 1) * b <= s,
{
    assert(s == b * (s / b) + s % b) by (nonlinear_arith)
        requires b >= 1;
    assert(0 <= (k - 1) * b <= s) by (nonlinear_arith)
        requires 0 <= k - 1 <= s / b, b >= 1, s == b * (s / b) + s % b, s % b >= 0;
}

impl Session {
    /// A session that has seen nothing yet.
    pub fn new() -> (r: Self)
        ensures
            r@ == fresh_view(),
            wf(r@),
    {
        let r = Session {
            data: Vec::new(),
            block_size: DEFAULT_BLOCK_SIZE,
            file_size: 0,
            window_size: DEFAULT_WINDOW_SIZE,
            state: SessionState::AwaitingRequest,
            pending: Vec::new(),
            last_sent: 0,
            window: Vec::new(),
            retries: 0,
            last_activity: 0,
        };
        assert(r@.window =~= Seq::<Seq<u8>>::empty());
        assert(r@ == fresh_view());
        r
    }
}

impl Data {
    /// The block that follows the acknowledged one, or `None` when the
    /// acknowledged block was the terminal one.
    pub fn new(ack: &Acknowledgement, session: &Session) -> (r: Option<Self>)
        requires
            wf(session@),
        ensures
            r is Some <==> ack.block < block_count(session.file_size, session.block_size)
                && ack.block < u16::MAX,
            r matches Some(d) ==> d.block == ack.block + 1 && d.data@ == block_payload(
                session.data@,
                session.block_size,
                ack.block + 1,
            ),
    {
        let b = session.block_size;
        let s = session.file_size;
        let k = ack.block as usize;
        if ack.block == u16::MAX || k > s / b {
            return None;
        }
        proof {
            lemma_block_start(k + 1, s as int, b as int);
        }
        let start = k * b;
        let end = if s - start >= b { start + b } else { s };
        let mut payload: Vec<u8> = Vec::new();
        let mut i: usize = start;
        while i < end
            invariant
                start <= i <= end <= s,
                s == session.data@.len(),
                payload@ == session.data@.subrange(start as int, i as int),
            decreases end - i,
        {
            payload.push(session.data[i]);
            assert(payload@ =~= session.data@.subrange(start as int, i as int + 1));
            i = i + 1;
        }
        assert(((k + 1) - 1) * b == start);
        assert((k + 1) * b == start + b) by (nonlinear_arith)
            requires start == k * b;
        Some(Data { block: ack.block + 1, data: payload })
    }
}

/// The datagram that carries block `k`.
pub open spec fn data_datagram(v: SessionView, k: int) -> Seq<u8> {
    encode_spec(PacketView::Data { block: k as u16, payload: block_payload(v.data, v.block_size, k) })
}

/// How many blocks the window after block `n` holds.
pub open spec fn window_len(v: SessionView, n: int) -> int {
    let rest = block_count(v.file_size, v.block_size) - n;
    if v.window_size < rest {
        v.window_size as int
    } else {
        rest
    }
}

/// The Data datagrams sent once block `n` is acknowledged: up to
/// `window_size` consecutive blocks from `n + 1`.
pub open spec fn window_after(v: SessionView, n: int) -> Seq<Seq<u8>> {
    Seq::new(window_len(v, n) as nat, |i: int| data_datagram(v, n + 1 + i))
}

pub open spec fn error_datagram(code: u16, message: Seq<u8>) -> Seq<u8> {
    encode_spec(PacketView::Error { code, message })
}

/// `File not found`
pub open spec fn file_not_found_text() -> Seq<u8> {
    seq![70u8, 105u8, 108u8, 101u8, 32u8, 110u8, 111u8, 116u8, 32u8, 102u8, 111u8, 117u8, 110u8, 100u8]
}

/// `Illegal TFTP operation`
pub open spec fn illegal_operation_text() -> Seq<u8> {
    seq![73u8, 108u8, 108u8, 101u8, 103u8, 97u8, 108u8, 32u8, 84u8, 70u8, 84u8, 80u8, 32u8, 111u8, 112u8,
        101u8, 114u8, 97u8, 116u8, 105u8, 111u8, 110u8]
}

/// `File too large`
pub open spec fn too_large_text() -> Seq<u8> {
    seq![70u8, 105u8, 108u8, 101u8, 32u8, 116u8, 111u8, 111u8, 32u8, 108u8, 97u8, 114u8, 103u8, 101u8]
}

pub open spec fn illegal_operation_datagram() -> Seq<u8> {
    error_datagram(ERROR_ILLEGAL_OPERATION, illegal_operation_text())
}

/// What the engine asks of its surroundings after a datagram.
pub enum Action {
    /// Send these datagrams to the client, in order (possibly none).
    Send(Vec<Vec<u8>>),
    /// Load the named resource and hand it to `Session::resource_loaded`.
    Load(Vec<u8>),
}

pub enum ActionView {
    Send(Seq<Seq<u8>>),
    Load(Seq<u8>),
}

impl View for Action {
    type V = ActionView;

    open spec fn view(&self) -> ActionView {
        match self {
            Action::Send(w) => ActionView::Send(datagrams(w@)),
            Action::Load(name) => ActionView::Load(name@),
        }
    }
}

pub open spec fn aborted(v: SessionView) -> SessionView {
    SessionView { state: SessionState::Aborted, ..v }
}

/// Effect of Acknowledgement `n`.
pub open spec fn ack_step(v: SessionView, n: u16, now: u64) -> (SessionView, ActionView) {
    if !is_transferring(v.state) {
        (aborted(v), ActionView::Send(seq![illegal_operation_datagram()]))
    } else if n != v.last_sent {
        (v, ActionView::Send(Seq::empty()))
    } else if n as int == block_count(v.file_size, v.block_size) {
        (SessionView { state: SessionState::Completed, ..v }, ActionView::Send(Seq::empty()))
    } else {
        let ghost w = window_after(v, n as int);
        (
            SessionView {
                state: SessionState::Transferring,
                last_sent: (n + w.len()) as u16,
                window: w,
                retries: 0,
                last_activity: now,
                ..v
            },
            ActionView::Send(w),
        )
    }
}

/// Effect of a decoded packet from the client.
pub open spec fn respond_spec(v: SessionView, p: PacketView, now: u64) -> (SessionView, ActionView) {
    match p {
        PacketView::Request { filename, options, .. } => (
            SessionView {
                state: SessionState::AwaitingResource,
                pending: options,
                last_activity: now,
                ..fresh_view()
            },
            ActionView::Load(filename),
        ),
        PacketView::Ack { block } => ack_step(v, block, now),
        PacketView::Error { .. } => (aborted(v), ActionView::Send(Seq::empty())),
        _ => (aborted(v), ActionView::Send(seq![illegal_operation_datagram()])),
    }
}

/// Effect of a raw datagram from the client.
pub open spec fn receive_spec(v: SessionView, bytes: Seq<u8>, now: u64) -> (SessionView, ActionView) {
    match decode_from_client_spec(bytes) {
        Ok(p) => respond_spec(v, p, now),
        Err(_) => (aborted(v), ActionView::Send(seq![illegal_operation_datagram()])),
    }
}

/// Effect of the outcome of loading the pending request's resource.
pub open spec fn loaded_spec(v: SessionView, content: Option<Seq<u8>>, now: u64) -> (
    SessionView,
    Seq<Seq<u8>>,
) {
    if v.state != SessionState::AwaitingResource {
        (v, Seq::empty())
    } else {
        match content {
            None => (aborted(v), seq![error_datagram(ERROR_FILE_NOT_FOUND, file_not_found_text())]),
            Some(c) => {
                let options = accepted_options(v.pending, c.len() as usize);
                let bs = negotiated_block_size(options);
                let ws = negotiated_window_size(options);
                if block_count(c.len() as usize, bs) > MAX_BLOCKS {
                    (aborted(v), seq![error_datagram(ERROR_NOT_DEFINED, too_large_text())])
                } else {
                    let oack = encode_spec(PacketView::OptionAck { options });
                    (
                        SessionView {
                            data: c,
                            block_size: bs,
                            file_size: c.len() as usize,
                            window_size: ws,
                            state: SessionState::Negotiated,
                            pending: Seq::empty(),
                            last_sent: 0,
                            window: seq![oack],
                            retries: 0,
                            last_activity: now,
                        },
                        seq![oack],
                    )
                }
            },
        }
    }
}

fn error_bytes(code: u16, message: Vec<u8>) -> (r: Vec<u8>)
    ensures
        r@ == error_datagram(code, message@),
{
    Tftp::Error(ErrorPacket { code, message }).serialise()
}

fn illegal_operation_bytes() -> (r: Vec<u8>)
    ensures
        r@ == illegal_operation_datagram(),
{
    let text = vec![73u8, 108u8, 108u8, 101u8, 103u8, 97u8, 108u8, 32u8, 84u8, 70u8, 84u8, 80u8, 32u8,
        111u8, 112u8, 101u8, 114u8, 97u8, 116u8, 105u8, 111u8, 110u8];
    assert(text@ =~= illegal_operation_text());
    error_bytes(ERROR_ILLEGAL_OPERATION, text)
}

fn file_not_found_bytes() -> (r: Vec<u8>)
    ensures
        r@ == error_datagram(ERROR_FILE_NOT_FOUND, file_not_found_text()),
{
    let text = vec![70u8, 105u8, 108u8, 101u8, 32u8, 110u8, 111u8, 116u8, 32u8, 102u8, 111u8, 117u8,
        110u8, 100u8];
    assert(text@ =~= file_not_found_text());
    error_bytes(ERROR_FILE_NOT_FOUND, text)
}

fn too_large_bytes() -> (r: Vec<u8>)
    ensures
        r@ == error_datagram(ERROR_NOT_DEFINED, too_large_text()),
{
    let text = vec![70u8, 105u8, 108u8, 101u8, 32u8, 116u8, 111u8, 111u8, 32u8, 108u8, 97u8, 114u8,
        103u8, 101u8];
    assert(text@ =~= too_large_text());
    error_bytes(ERROR_NOT_DEFINED, text)
}

fn single(d: Vec<u8>) -> (r: Vec<Vec<u8>>)
    ensures
        datagrams(r@) == seq![d@],
{
    let mut r: Vec<Vec<u8>> = Vec::new();
    r.push(d);
    assert(datagrams(r@) =~= seq![d@]);
    r
}

fn copy_datagrams(w: &Vec<Vec<u8>>) -> (r: Vec<Vec<u8>>)
    ensures
        datagrams(r@) == datagrams(w@),
{
    let mut r: Vec<Vec<u8>> = Vec::new();
    let mut i: usize = 0;
    while i < w.len()
        invariant
            i <= w@.len(),
            r@.len() == i,
            forall|k: int| 0 <= k < i ==> #[trigger] r@[k]@ == w@[k]@,
        decreases w@.len() - i,
    {
        let mut d: Vec<u8> = Vec::new();
        let mut j: usize = 0;
        while j < w[i].len()
            invariant
                i < w@.len(),
                j <= w@[i as int]@.len(),
                d@ == w@[i as int]@.take(j as int),
            decreases w@[i as int]@.len() - j,
        {
            d.push(w[i][j]);
            assert(d@ =~= w@[i as int]@.take(j as int + 1));
            j = j + 1;
        }
        assert(d@ =~= w@[i as int]@);
        let ghost before = r@;
        r.push(d);
        i = i + 1;
    }
    assert(datagrams(r@) =~= datagrams(w@));
    r
}

impl Session {
    /// Sends the window that follows block `n` and records it.
    fn send_window(&mut self, n: u16, now: u64) -> (r: Vec<Vec<u8>>)
        requires
            wf(old(self)@),
            is_transferring(old(self).state),
            n == old(self).last_sent,
            (n as int) < block_count(old(self).file_size, old(self).block_size),
        ensures
            final(self)@ == ack_step(old(self)@, n, now).0,
            ActionView::Send(datagrams(r@)) == ack_step(old(self)@, n, now).1,
            wf(final(self)@),
    {
        let ghost v = self@;
        let rest = self.file_size / self.block_size + 1 - n as usize;
        let count = if self.window_size < rest { self.window_size } else { rest };
        let mut out: Vec<Vec<u8>> = Vec::new();
        let mut i: usize = 0;
        while i < count
            invariant
                self@ == v,
                wf(v),
                count == window_len(v, n as int),
                (n as int) + count <= block_count(v.file_size, v.block_size) <= MAX_BLOCKS,
                i <= count,
                out@.len() == i,
                forall|k: int| 0 <= k < i ==> #[trigger] out@[k]@ == data_datagram(v, n + 1 + k),
            decreases count - i,
        {
            let ack = Acknowledgement { block: n + i as u16 };
            let d = match Data::new(&ack, self) {
                Some(d) => d,
                None => {
                    // every block up to `block_count` exists
                    assert(false);
                    return out;
                },
            };
            let bytes = Tftp::Data(d).serialise();
            out.push(bytes);
            i = i + 1;
        }
        let ghost w = window_after(v, n as int);
        assert(datagrams(out@) =~= w);
        self.window = copy_datagrams(&out);
        self.state = SessionState::Transferring;
        self.last_sent = n + count as u16;
        self.retries = 0;
        self.last_activity = now;
        assert(self@ == ack_step(v, n, now).0);
        out
    }
}

impl OptionAcknowledgement {
    /// Negotiates the `requested` options against the loaded resource,
    /// installs the block and window sizes in `session`, and returns the
    /// acknowledgement that confirms them.
    pub fn new(requested: &Vec<TftpOption>, session: &mut Session) -> (r: Self)
        ensures
            r.options@ == accepted_options(requested@, old(session).file_size),
            final(session).block_size == negotiated_block_size(r.options@),
            final(session).window_size == negotiated_window_size(r.options@),
            final(session)@ == (SessionView {
                block_size: final(session).block_size,
                window_size: final(session).window_size,
                ..old(session)@
            }),
            1 <= final(session).block_size <= MAX_BLOCK_SIZE,
            1 <= final(session).window_size <= MAX_WINDOW_SIZE,
    {
        let n = negotiate(requested, session.file_size);
        session.block_size = n.block_size;
        session.window_size = n.window_size;
        OptionAcknowledgement { options: n.options }
    }
}

impl Session {
    fn abort(&mut self)
        requires
            wf(old(self)@),
        ensures
            final(self)@ == aborted(old(self)@),
            wf(final(self)@),
    {
        self.state = SessionState::Aborted;
    }

    /// Hands the session the outcome of loading its pending request's
    /// resource (`None`: it does not exist). Returns the datagrams to send.
    pub fn resource_loaded(&mut self, content: Option<Vec<u8>>, now: u64) -> (r: Vec<Vec<u8>>)
        requires
            wf(old(self)@),
        ensures
            (final(self)@, datagrams(r@)) == loaded_spec(
                old(self)@,
                match content {
                    Some(c) => Some(c@),
                    None => None,
                },
                now,
            ),
            wf(final(self)@),
    {
        if self.state != SessionState::AwaitingResource {
            let r: Vec<Vec<u8>> = Vec::new();
            assert(datagrams(r@) =~= Seq::<Seq<u8>>::empty());
            return r;
        }
        match content {
            None => {
                self.abort();
                single(file_not_found_bytes())
            },
            Some(c) => {
                let ghost v = self@;
                let size = c.len();
                let mut staged = Session::new();
                staged.data = c;
                staged.file_size = size;
                let oack = OptionAcknowledgement::new(&self.pending, &mut staged);
                if size / staged.block_size >= MAX_BLOCKS {
                    self.abort();
                    return single(too_large_bytes());
                }
                let bytes = Tftp::OptionAcknowledgement(oack).serialise();
                staged.state = SessionState::Negotiated;
                staged.window = single(copy_bytes(&bytes));
                staged.last_activity = now;
                *self = staged;
                assert(self@.pending =~= Seq::<TftpOption>::empty());
                assert(self@ == loaded_spec(v, Some(c@), now).0);
                single(bytes)
            },
        }
    }
}

fn copy_bytes(b: &Vec<u8>) -> (r: Vec<u8>)
    ensures
        r@ == b@,
{
    let mut r: Vec<u8> = Vec::new();
    let mut i: usize = 0;
    while i < b.len()
        invariant
            i <= b@.len(),
            r@ == b@.take(i as int),
        decreases b@.len() - i,
    {
        r.push(b[i]);
        assert(r@ =~= b@.take(i as int + 1));
        i = i + 1;
    }
    assert(b@.take(b@.len() as int) =~= b@);
    r
}

impl Tftp {
    /// Applies a packet from the client to its session and says what to do.
    pub fn respond(self, session: &mut Session, now: u64) -> (r: Action)
        requires
            wf(old(session)@),
        ensures
            (final(session)@, r@) == respond_spec(old(session)@, self@, now),
            wf(final(session)@),
    {
        match self {
            Tftp::ReadRequest(req) => {
                let ReadRequest { filename, mode: _, options } = req;
                *session = Session::new();
                session.state = SessionState::AwaitingResource;
                session.pending = options;
                session.last_activity = now;
                Action::Load(filename)
            },
            Tftp::Acknowledgement(ack) => {
                let n = ack.block;
                if !(session.state == SessionState::Negotiated || session.state
                    == SessionState::Transferring) {
                    session.abort();
                    return Action::Send(single(illegal_operation_bytes()));
                }
                if n != session.last_sent {
                    let r: Vec<Vec<u8>> = Vec::new();
                    assert(datagrams(r@) =~= Seq::<Seq<u8>>::empty());
                    return Action::Send(r);
                }
                if session.file_size / session.block_size + 1 == n as usize {
                    session.state = SessionState::Completed;
                    let r: Vec<Vec<u8>> = Vec::new();
                    assert(datagrams(r@) =~= Seq::<Seq<u8>>::empty());
                    return Action::Send(r);
                }
                Action::Send(session.send_window(n, now))
            },
            Tftp::Error(_) => {
                session.abort();
                let r: Vec<Vec<u8>> = Vec::new();
                assert(datagrams(r@) =~= Seq::<Seq<u8>>::empty());
                Action::Send(r)
            },
            _ => {
                session.abort();
                Action::Send(single(illegal_operation_bytes()))
            },
        }
    }

    /// Decodes a datagram from a client and applies it to its session.
    /// A datagram that does not decode aborts the session with an error
    /// reply; the process never fails on it.
    pub fn handle(session: &mut Session, data: &[u8], now: u64) -> (r: Action)
        requires
            wf(old(session)@),
        ensures
            (final(session)@, r@) == receive_spec(old(session)@, data@, now),
            wf(final(session)@),
    {
        match Tftp::parse_from_client(data) {
            Ok(p) => p.respond(session, now),
            Err(_) => {
                session.abort();
                Action::Send(single(illegal_operation_bytes()))
            },
        }
    }
}

/// What the supervisor does with a session on one of its rounds.
pub enum TickAction {
    /// The deadline has not passed (or the session is over): nothing.
    Wait,
    /// Send the last window again, unchanged.
    Resend(Vec<Vec<u8>>),
    /// The retry budget is spent: the session is aborted, silently.
    Abort,
}

pub enum TickView {
    Wait,
    Resend(Seq<Seq<u8>>),
    Abort,
}

impl View for TickAction {
    type V = TickView;

    open spec fn view(&self) -> TickView {
        match self {
            TickAction::Wait => TickView::Wait,
            TickAction::Resend(w) => TickView::Resend(datagrams(w@)),
            TickAction::Abort => TickView::Abort,
        }
    }
}

/// More than `timeout` has passed since the session's last activity.
pub open spec fn expired(v: SessionView, now: u64, timeout: u64) -> bool {
    now as int - v.last_activity as int > timeout as int
}

/// Effect of a supervisor round at time `now`.
pub open spec fn tick_spec(v: SessionView, now: u64, timeout: u64, max_retries: u32) -> (
    SessionView,
    TickView,
) {
    if !is_live(v.state) || !expired(v, now, timeout) {
        (v, TickView::Wait)
    } else if v.retries < max_retries {
        (
            SessionView { retries: (v.retries + 1) as u32, last_activity: now, ..v },
            TickView::Resend(v.window),
        )
    } else {
        (aborted(v), TickView::Abort)
    }
}

impl Session {
    /// One supervisor round: after `timeout` without activity, resend the
    /// last window while fewer than `max_retries` retries were made, else
    /// abort.
    pub fn tick(&mut self, now: u64, timeout: u64, max_retries: u32) -> (r: TickAction)
        requires
            wf(old(self)@),
        ensures
            (final(self)@, r@) == tick_spec(old(self)@, now, timeout, max_retries),
            wf(final(self)@),
    {
        if self.state == SessionState::Completed || self.state == SessionState::Aborted
            || now <= self.last_activity || now - self.last_activity <= timeout {
            return TickAction::Wait;
        }
        if self.retries < max_retries {
            self.retries = self.retries + 1;
            self.last_activity = now;
            TickAction::Resend(copy_datagrams(&self.window))
        } else {
            self.abort();
            TickAction::Abort
        }
    }
}

/// Supervisor rounds at the given times, in order.
pub open spec fn run_ticks(v: SessionView, times: Seq<u64>, timeout: u64, max_retries: u32) -> (
    SessionView,
    Seq<TickView>,
)
    decreases times.len(),
{
    if times.len() == 0 {
        (v, Seq::empty())
    } else {
        let (v1, a) = tick_spec(v, times[0], timeout, max_retries);
        let (vn, rest) = run_ticks(v1, times.skip(1), timeout, max_retries);
        (vn, seq![a] + rest)
    }
}

/// Each round comes more than `timeout` after the previous one (the first
/// more than `timeout` after `last`): no Acknowledgement arrives between.
pub open spec fn silent_rounds(last: u64, times: Seq<u64>, timeout: u64) -> bool {
    &&& times.len() > 0 ==> times[0] as int - last as int > timeout as int
    &&& forall|i: int|
        0 < i < times.len() ==> #[trigger] times[i] as int - times[i - 1] as int > timeout as int
}

/// A session that hears nothing resends its identical last window on each
/// expired round while retries remain, and is aborted on the round after.
pub proof fn lemma_timeout_recovery(v: SessionView, times: Seq<u64>, timeout: u64, max_retries: u32)
    requires
        is_live(v.state),
        v.retries <= max_retries,
        silent_rounds(v.last_activity, times, timeout),
        times.len() <= max_retries - v.retries + 1,
    ensures
        ({
            let (vn, acts) = run_ticks(v, times, timeout, max_retries);
            &&& acts.len() == times.len()
            &&& forall|i: int|
                0 <= i < times.len() && i < max_retries - v.retries ==> #[trigger] acts[i]
                    == TickView::Resend(v.window)
            &&& times.len() == max_retries - v.retries + 1 ==> {
                &&& acts.last() == TickView::Abort
                &&& vn.state == SessionState::Aborted
            }
            &&& times.len() <= max_retries - v.retries ==> {
                &&& vn.state == v.state
                &&& vn.window == v.window
                &&& vn.retries == v.retries + times.len()
            }
        }),
    decreases times.len(),
{
    if times.len() > 0 {
        let (v1, a) = tick_spec(v, times[0], timeout, max_retries);
        let tail = times.skip(1);
        if v.retries < max_retries {
            assert(silent_rounds(v1.last_activity, tail, timeout)) by {
                assert forall|i: int| 0 < i < tail.len() implies #[trigger] tail[i] as int - tail[i
                    - 1] as int > timeout as int by {
                    assert(tail[i] == times[i + 1] && tail[i - 1] == times[i]);
                }
                if tail.len() > 0 {
                    assert(tail[0] == times[1]);
                }
            }
            lemma_timeout_recovery(v1, tail, timeout, max_retries);
            let (vn, rest) = run_ticks(v1, tail, timeout, max_retries);
            let acts = seq![a] + rest;
            assert forall|i: int|
                0 <= i < times.len() && i < max_retries - v.retries implies #[trigger] acts[i]
                == TickView::Resend(v.window) by {
                if i > 0 {
                    assert(acts[i] == rest[i - 1]);
                }
            }
        } else {
            assert(tail.len() == 0);
        }
    }
}

/// Block sizes: with `S` bytes and block size `B`, blocks `1..=S/B` are
/// full, the terminal block `S/B + 1` holds the remaining `S mod B` bytes
/// (none when `B` divides `S`), and the acknowledgement of the terminal
/// block, and no earlier one, completes the transfer.
pub proof fn lemma_block_layout(v: SessionView, now: u64)
    requires
        wf(v),
    ensures
        forall|k: int|
            1 <= k <= v.file_size / v.block_size ==> #[trigger] block_payload(
                v.data,
                v.block_size,
                k,
            ).len() == v.block_size,
        block_payload(v.data, v.block_size, block_count(v.file_size, v.block_size)).len()
            == v.file_size % v.block_size,
        is_transferring(v.state) && v.last_sent == block_count(v.file_size, v.block_size) ==> {
            &&& ack_step(v, v.last_sent, now).0.state == SessionState::Completed
            &&& ack_step(v, v.last_sent, now).1 == ActionView::Send(Seq::empty())
        },
        is_transferring(v.state) && v.last_sent < block_count(v.file_size, v.block_size) ==> ack_step(
            v,
            v.last_sent,
            now,
        ).0.state == SessionState::Transferring,
{
    let s = v.file_size as int;
    let b = v.block_size as int;
    assert(s == b * (s / b) + s % b) by (nonlinear_arith)
        requires b >= 1;
    assert forall|k: int| 1 <= k <= s / b implies #[trigger] block_payload(v.data, v.block_size, k).len()
        == b by {
        lemma_block_start(k, s, b);
        assert(k * b <= s) by (nonlinear_arith)
            requires 1 <= k <= s / b, b >= 1, s == b * (s / b) + s % b, s % b >= 0;
        assert(k * b == (k - 1) * b + b) by (nonlinear_arith);
    }
    let n = s / b + 1;
    lemma_block_start(n, s, b);
    assert(s == b * (s / b) + s % b) by (nonlinear_arith)
        requires b >= 1;
    assert((n - 1) * b == b * (s / b)) by (nonlinear_arith)
        requires n - 1 == s / b;
    assert(n * b == (n - 1) * b + b) by (nonlinear_arith);
}

/// A repeated or stale Acknowledgement (any block other than the last one
/// sent) changes nothing and sends nothing.
pub proof fn lemma_duplicate_ack_ignored(v: SessionView, block: u16, now: u64)
    requires
        is_transferring(v.state),
        block != v.last_sent,
    ensures
        receive_spec(v, encode_spec(PacketView::Ack { block }), now) == (
            v,
            ActionView::Send(Seq::empty()),
        ),
{
    crate::codec::lemma_round_trip(PacketView::Ack { block });
}

} // verus!

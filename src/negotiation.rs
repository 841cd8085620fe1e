use vstd::prelude::*;
use crate::codec::{TftpOption, PacketView, option_name, decode_spec, encode_spec, lemma_round_trip};

verus! {

pub const DEFAULT_BLOCK_SIZE: usize = 512;
pub const DEFAULT_WINDOW_SIZE: usize = 1;
pub const MAX_BLOCK_SIZE: usize = 65464;
pub const MAX_WINDOW_SIZE: usize = 64;

/// `v` brought into `[1, hi]`: out-of-range proposals are clamped to the
/// nearest bound rather than refused.
pub open spec fn clamp(v: usize, hi: usize) -> usize {
    if v < 1 {
        1
    } else if v > hi {
        hi
    } else {
        v
    }
}

/// What the server confirms for one proposed option: the real size for
/// `tsize`, the clamped value for `blksize` and `windowsize`.
pub open spec fn accepted_option(o: TftpOption, file_size: usize) -> TftpOption {
    match o {
        TftpOption::TransferSize(_) => TftpOption::TransferSize(file_size),
        TftpOption::BlockSize(v) => TftpOption::BlockSize(clamp(v, MAX_BLOCK_SIZE)),
        TftpOption::WindowSize(v) => TftpOption::WindowSize(clamp(v, MAX_WINDOW_SIZE)),
    }
}

/// The options acknowledged for a request, one for each proposed, in order.
pub open spec fn accepted_options(requested: Seq<TftpOption>, file_size: usize) -> Seq<TftpOption> {
    Seq::new(requested.len(), |i: int| accepted_option(requested[i], file_size))
}

/// The block size a list of accepted options installs: the last `blksize`,
/// or the default.
pub open spec fn negotiated_block_size(options: Seq<TftpOption>) -> usize
    decreases options.len(),
{
    if options.len() == 0 {
        DEFAULT_BLOCK_SIZE
    } else {
        match options.last() {
            TftpOption::BlockSize(v) => v,
            _ => negotiated_block_size(options.drop_last()),
        }
    }
}

/// The window size a list of accepted options installs: the last
/// `windowsize`, or the default.
pub open spec fn negotiated_window_size(options: Seq<TftpOption>) -> usize
    decreases options.len(),
{
    if options.len() == 0 {
        DEFAULT_WINDOW_SIZE
    } else {
        match options.last() {
            TftpOption::WindowSize(v) => v,
            _ => negotiated_window_size(options.drop_last()),
        }
    }
}

/// The outcome of option negotiation.
pub struct Negotiation {
    pub options: Vec<TftpOption>,
    pub block_size: usize,
    pub window_size: usize,
}

proof fn lemma_negotiated_in_range(os: Seq<TftpOption>, requested: Seq<TftpOption>, file_size: usize)
    requires
        os.len() <= requested.len(),
        forall|i: int| 0 <= i < os.len() ==> os[i] == accepted_option(requested[i], file_size),
    ensures
        1 <= negotiated_block_size(os) <= MAX_BLOCK_SIZE,
        1 <= negotiated_window_size(os) <= MAX_WINDOW_SIZE,
    decreases os.len(),
{
    if os.len() > 0 {
        lemma_negotiated_in_range(os.drop_last(), requested, file_size);
    }
}

/// Decides the acknowledged options and the block and window sizes of a
/// transfer of `file_size` bytes.
pub fn negotiate(requested: &Vec<TftpOption>, file_size: usize) -> (r: Negotiation)
    ensures
        r.options@ == accepted_options(requested@, file_size),
        r.block_size == negotiated_block_size(r.options@),
        r.window_size == negotiated_window_size(r.options@),
        1 <= r.block_size <= MAX_BLOCK_SIZE,
        1 <= r.window_size <= MAX_WINDOW_SIZE,
{
    let mut options: Vec<TftpOption> = Vec::new();
    let mut block_size: usize = DEFAULT_BLOCK_SIZE;
    let mut window_size: usize = DEFAULT_WINDOW_SIZE;
    let mut i: usize = 0;
    while i < requested.len()
        invariant
            i <= requested@.len(),
            options@.len() == i,
            forall|k: int| 0 <= k < i ==> options@[k] == accepted_option(requested@[k], file_size),
            block_size == negotiated_block_size(options@),
            window_size == negotiated_window_size(options@),
        decreases requested@.len() - i,
    {
        let accepted = match requested[i] {
            TftpOption::TransferSize(_) => TftpOption::TransferSize(file_size),
            TftpOption::BlockSize(v) => {
                let b = if v < 1 { 1 } else if v > MAX_BLOCK_SIZE { MAX_BLOCK_SIZE } else { v };
                block_size = b;
                TftpOption::BlockSize(b)
            },
            TftpOption::WindowSize(v) => {
                let w = if v < 1 { 1 } else if v > MAX_WINDOW_SIZE { MAX_WINDOW_SIZE } else { v };
                window_size = w;
                TftpOption::WindowSize(w)
            },
        };
        let ghost before = options@;
        options.push(accepted);
        assert(options@.drop_last() =~= before);
        i = i + 1;
    }
    proof {
        lemma_negotiated_in_range(options@, requested@, file_size);
    }
    assert(options@ =~= accepted_options(requested@, file_size));
    Negotiation { options, block_size, window_size }
}

/// No option is invented: every option that the OptionAcknowledgement for
/// a request carries, once encoded and decoded again, has the name of an
/// option that the request proposed.
pub proof fn lemma_no_option_invented(requested: Seq<TftpOption>, file_size: usize)
    ensures
        ({
            let oack = PacketView::OptionAck { options: accepted_options(requested, file_size) };
            match decode_spec(encode_spec(oack)) {
                Ok(PacketView::OptionAck { options }) => forall|k: int|
                    0 <= k < options.len() ==> exists|m: int|
                        0 <= m < requested.len() && option_name(#[trigger] options[k])
                            == option_name(requested[m]),
                _ => false,
            }
        }),
{
    let oack = PacketView::OptionAck { options: accepted_options(requested, file_size) };
    lemma_round_trip(oack);
    let options = accepted_options(requested, file_size);
    assert forall|k: int| 0 <= k < options.len() implies exists|m: int|
        0 <= m < requested.len() && option_name(#[trigger] options[k]) == option_name(requested[m]) by {
        assert(option_name(options[k]) == option_name(requested[k]));
    }
}

} // verus!

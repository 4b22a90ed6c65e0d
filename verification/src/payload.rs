//! Compressed render payloads: inflating a raw-DEFLATE stream into a buffer
//! whose size is fixed before any byte of the stream is read.

use vstd::prelude::*;
use vstd::string::StringSliceAdditionalSpecFns;

use crate::routes::MAX_DECODED_SIZE;
use flate2::{Decompress, DecompressError, FlushDecompress, Status};

verus! {

#[verifier::external_type_specification]
#[verifier::external_body]
pub struct ExDecompress(Decompress);

#[verifier::external_type_specification]
#[verifier::external_body]
pub struct ExDecompressError(DecompressError);

/// The text behind the preset DEFLATE dictionary of scheme `0x02`: a
/// generic "build passing" pill, then common CSS and HTML idioms and the
/// attribute shapes of the most used connector presets.
pub const DICTIONARY_SOURCE: &'static str = "\
<body>
\t<div class=\"wrap\">
\t\t<span class=\"label\">build</span>
\t\t<span class=\"value\">passing</span>
\t</div>
</body>
<style>
\tbody { margin: 0; background: #000000; }
\t.wrap { display: flex; font-family: monospace; font-size: 14px; font-weight: bold; }
\t.label { background: #1a1a1a; color: #a1a1a1; padding: 8px 14px; border-radius: 6px 0 0 6px; }
\t.value { background: #2ea043; color: #ffffff; padding: 8px 14px; border-radius: 0 6px 6px 0; }
</style>
<span data-preset=\"github-stars\" data-owner=\"\" data-repo=\"\"></span>
<span data-preset=\"npm-version\" data-package=\"\"></span>
<span data-preset=\"crates-downloads\" data-crate=\"\"></span>
<span data-preset=\"pypi-downloads\" data-package=\"\"></span>
<span data-preset=\"docker-pulls\" data-user=\"\" data-repo=\"\"></span>
<html><head></head><body></body></html>
<div class=\"item\"><span class=\"label\"></span><span class=\"value\"></span></div>
<div style=\"display: flex\"><div class=\"item detail\"></div><div class=\"item status\"></div></div>
data-preset=\"\" data-connector=\"\" data-number-format=\"\" data-owner=\"\" data-repo=\"\" data-package=\"\" data-user=\"\" data-branch=\"\" data-project=\"\"
font-family: \"Geist Mono\", ui-monospace, \"JetBrains Mono\", monospace;
font-family: \"JetBrainsMono Nerd Font Mono\";
font-family: \"Geist\";
text-align: center; justify-content: center; align-items: center;
border-radius: 6px 0 0 6px; border-radius: 0 6px 6px 0; border-radius: 4px;
border: 1px solid #262626; border: 1px solid #1a1a1a;
font-weight: 700; font-weight: 600; font-weight: bold; font-size: 14px; font-size: 12px;
line-height: 1; letter-spacing: -0.05em;
background: #000000; background: #ffffff; background: #1a1a1a; background: #0a0a0a;
color: #ffffff; color: #000000; color: #a1a1a1; color: #757575; color: white; color: black;
margin: 0; padding: 0; padding: 8px 14px; padding: 6px 12px; padding: 10px;
display: flex; display: block; display: inline-block;
width: 100%; height: 100%;
</span></div></body></html>
";

/// The preset DEFLATE dictionary behind scheme `0x02`: the bytes of
/// `DICTIONARY_SOURCE`. They are frozen once the scheme ships, since an
/// issued scheme-`0x02` URL must keep decoding as it does; a better
/// dictionary comes as a new scheme.
pub fn dictionary_v1() -> (r: &'static [u8])
    ensures
        r@ == DICTIONARY_SOURCE.spec_bytes(),
{
    DICTIONARY_SOURCE.as_bytes()
}

/// Why a compressed payload could not be inflated.
#[derive(Debug, PartialEq, Eq)]
pub enum InflateError {
    /// The stream, or the dictionary handed with it, was refused.
    Corrupt,
    /// The stream decodes to more than `MAX_DECODED_SIZE` bytes, or did not
    /// end within that many.
    TooLarge,
}

/// How an inflate call ended.
#[derive(Debug, PartialEq, Eq)]
pub enum InflateStatus {
    /// Progress was made, but the stream has not ended.
    Progressed,
    /// No progress was possible: more input, or more room, was needed.
    BufError,
    /// The stream ended and all its output was written.
    StreamEnd,
}

/// How much an inflate call may hold back.
pub enum InflateFlush {
    NoFlush,
    Sync,
    Finish,
}

/// What has been done with an inflater so far.
pub ghost enum InflaterState {
    /// Made for raw DEFLATE and not yet used, its window preset with the
    /// dictionary, if any.
    Fresh(Option<Seq<u8>>),
    /// One inflate call made on a fresh inflater, which wrote this many
    /// bytes.
    Inflated(u64),
    /// Anything else.
    Spent,
}

/// A flate2 raw-DEFLATE inflater, with what has been done with it so far.
/// Only the wrappers below make or change one.
pub struct Inflater {
    inner: Decompress,
    state: Ghost<InflaterState>,
}

impl Inflater {
    pub closed spec fn spec_state(&self) -> InflaterState {
        self.state@
    }
}

/// Whether flate2 refuses `dictionary` as the preset window of a fresh
/// raw-DEFLATE inflater.
pub uninterp spec fn raw_dictionary_refused(dictionary: Seq<u8>) -> bool;

/// What one call of flate2's `decompress` with `FlushDecompress::Finish`
/// on a fresh raw-DEFLATE inflater, its window preset with `dictionary` if
/// any, does with the stream `compressed` and an output buffer of `cap`
/// bytes: `None` where it refuses the stream, else the status it reports
/// and the bytes it writes at the start of the buffer.
pub uninterp spec fn raw_inflate_capped(compressed: Seq<u8>, dictionary: Option<Seq<u8>>, cap: nat) -> Option<(InflateStatus, Seq<u8>)>;

/// `flate2::Decompress::new(false)`: a fresh inflater for raw DEFLATE.
#[verifier::external_body]
fn new_raw_inflater() -> (r: Inflater)
    ensures
        r.spec_state() == InflaterState::Fresh(None),
{
    Inflater { inner: Decompress::new(false), state: Ghost(InflaterState::Fresh(None)) }
}

/// `flate2::Decompress::set_dictionary`: presets the window of a fresh
/// raw-DEFLATE inflater with `dictionary`. flate2 refuses it or not by the
/// dictionary alone (`raw_dictionary_refused`); a refused inflater is spent.
#[verifier::external_body]
fn set_inflate_dictionary(inflater: &mut Inflater, dictionary: &[u8]) -> (r: Result<u32, DecompressError>)
    ensures
        old(inflater).spec_state() == InflaterState::Fresh(None) ==> (r is Err
            <==> raw_dictionary_refused(dictionary@)),
        old(inflater).spec_state() == InflaterState::Fresh(None) && r is Ok ==> final(inflater).spec_state() == InflaterState::Fresh(Some(dictionary@)),
        !(old(inflater).spec_state() == InflaterState::Fresh(None) && r is Ok) ==> final(inflater).spec_state() == InflaterState::Spent,
{
    inflater.inner.set_dictionary(dictionary)
}

/// `flate2::Decompress::decompress`: inflates `input` into `output`, whose
/// length it cannot change. Called with `Finish` on a fresh inflater, it
/// does what `raw_inflate_capped` names: refuses the stream, or reports a
/// status and writes bytes at the start of `output`. What it does in any
/// other state is not stated.
#[verifier::external_body]
fn inflate_into(
    inflater: &mut Inflater,
    input: &[u8],
    output: &mut Vec<u8>,
    flush: InflateFlush,
) -> (r: Result<InflateStatus, DecompressError>)
    ensures
        final(output)@.len() == old(output)@.len(),
        match old(inflater).spec_state() {
            InflaterState::Fresh(d) => flush is Finish ==> match raw_inflate_capped(
                input@,
                d,
                old(output)@.len(),
            ) {
                None => r is Err && final(inflater).spec_state() == InflaterState::Spent,
                Some((status, written)) => {
                    &&& r == Ok::<InflateStatus, DecompressError>(status)
                    &&& written.len() <= old(output)@.len()
                    &&& final(output)@.take(written.len() as int) == written
                    &&& final(inflater).spec_state() == InflaterState::Inflated(written.len() as u64)
                },
            },
            _ => true,
        },
        !(old(inflater).spec_state() is Fresh && flush is Finish) ==> final(inflater).spec_state()
            == InflaterState::Spent,
{
    let flush = match flush {
        InflateFlush::NoFlush => FlushDecompress::None,
        InflateFlush::Sync => FlushDecompress::Sync,
        InflateFlush::Finish => FlushDecompress::Finish,
    };
    match inflater.inner.decompress(input, output.as_mut_slice(), flush) {
        Ok(Status::Ok) => Ok(InflateStatus::Progressed),
        Ok(Status::BufError) => Ok(InflateStatus::BufError),
        Ok(Status::StreamEnd) => Ok(InflateStatus::StreamEnd),
        Err(e) => Err(e),
    }
}

/// `flate2::Decompress::total_out`: how many bytes the inflater has written
/// so far; after one inflate call on a fresh inflater, what that call wrote.
#[verifier::external_body]
fn inflated_total(inflater: &Inflater) -> (r: u64)
    ensures
        inflater.spec_state() matches InflaterState::Inflated(t) ==> r == t,
{
    inflater.inner.total_out()
}

/// What inflating the stream `compressed` with the preset window
/// `dictionary` into a buffer of `MAX_DECODED_SIZE + 1` bytes comes to: a
/// refused stream is `Corrupt`; one that ended within `MAX_DECODED_SIZE`
/// bytes gives the bytes written; anything else is `TooLarge`.
pub open spec fn bounded_inflate_result(compressed: Seq<u8>, dictionary: Option<Seq<u8>>) -> Result<Seq<u8>, InflateError> {
    match raw_inflate_capped(compressed, dictionary, (MAX_DECODED_SIZE + 1) as nat) {
        None => Err(InflateError::Corrupt),
        Some((status, written)) => if status == InflateStatus::StreamEnd && written.len()
            <= MAX_DECODED_SIZE {
            Ok(written)
        } else {
            Err(InflateError::TooLarge)
        },
    }
}

/// What an inflate into the buffer `out` comes to, given the status it
/// ended with and the number of bytes it wrote: the first `total_out`
/// bytes of `out` when the stream ended within `MAX_DECODED_SIZE` bytes,
/// else `TooLarge`.
pub fn inflate_outcome(status: InflateStatus, total_out: u64, out: Vec<u8>) -> (r: Result<
    Vec<u8>,
    InflateError,
>)
    ensures
        (status == InflateStatus::StreamEnd && total_out <= MAX_DECODED_SIZE) ==> (r matches Ok(
            v,
        ) && v@ == (if total_out <= out@.len() {
            out@.take(total_out as int)
        } else {
            out@
        })),
        !(status == InflateStatus::StreamEnd && total_out <= MAX_DECODED_SIZE) ==> r == Err::<
            Vec<u8>,
            InflateError,
        >(InflateError::TooLarge),
{
    match status {
        InflateStatus::StreamEnd => {
            if total_out <= MAX_DECODED_SIZE as u64 {
                let mut out = out;
                out.truncate(total_out as usize);
                Ok(out)
            } else {
                Err(InflateError::TooLarge)
            }
        },
        _ => Err(InflateError::TooLarge),
    }
}

/// Inflates the raw-DEFLATE stream `compressed`, its window preset with
/// `dictionary` where one is given, into a buffer of `MAX_DECODED_SIZE + 1`
/// bytes allocated up front. The inflater never writes past that buffer, so
/// no payload, whatever it claims of its own size, makes a larger
/// allocation. A refused dictionary or stream is `Corrupt`; a stream that
/// did not end within `MAX_DECODED_SIZE` bytes is `TooLarge`.
pub fn inflate_bounded(compressed: &[u8], dictionary: Option<&[u8]>) -> (r: Result<
    Vec<u8>,
    InflateError,
>)
    ensures
        r matches Ok(v) ==> v@.len() <= MAX_DECODED_SIZE,
        (dictionary matches Some(d) && raw_dictionary_refused(d@)) ==> r == Err::<
            Vec<u8>,
            InflateError,
        >(InflateError::Corrupt),
        !(dictionary matches Some(d) && raw_dictionary_refused(d@)) ==> match bounded_inflate_result(
            compressed@,
            match dictionary {
                Some(d) => Some(d@),
                None => None,
            },
        ) {
            Ok(bytes) => r matches Ok(v) && v@ == bytes,
            Err(e) => r == Err::<Vec<u8>, InflateError>(e),
        },
{
    let mut inflater = new_raw_inflater();
    if let Some(dictionary) = dictionary {
        match set_inflate_dictionary(&mut inflater, dictionary) {
            Ok(_) => {},
            Err(_) => {
                return Err(InflateError::Corrupt);
            },
        }
    }
    let mut out: Vec<u8> = vec![0u8; MAX_DECODED_SIZE + 1];
    let status = match inflate_into(&mut inflater, compressed, &mut out, InflateFlush::Finish) {
        Ok(status) => status,
        Err(_) => {
            return Err(InflateError::Corrupt);
        },
    };
    let total_out = inflated_total(&inflater);
    inflate_outcome(status, total_out, out)
}

} // verus!

use vstd::prelude::*;

verus! {

use crate::canvas::Board;
use crate::canvas::Pixel;
use crate::codec::le4_at;
use crate::codec::le8_at;
use crate::codec::spec_pixel_at;
use crate::codec::decode_row_vec;
use crate::codec::read_u64_at;
use crate::BOARD_HEIGHT;
use crate::BOARD_WIDTH;
use vstd::string::StringSliceAdditionalSpecFns;
use vstd::string::StrSliceExecFns;

/// Why one fetch attempt produced no board.
#[derive(Copy, Clone, PartialEq, Eq, Structural, Debug)]
pub enum FetchError {
    /// The remote service has no queryable state at this height; asking again
    /// cannot help.
    NotFound,
    /// A recoverable fault: transport failure, undecodable response, or an
    /// unexpected schema. Worth retrying.
    Transient,
}

/// One JSON-RPC envelope: either a result or an error object.
#[derive(Debug)]
pub struct JsonResponse<T> {
    pub id: String,
    pub jsonrpc: String,
    pub result: Option<T>,
    pub error: Option<RpcError>,
}

/// The error object of a JSON-RPC response.
#[derive(Debug)]
pub struct RpcError {
    pub code: i32,
    pub data: String,
    pub message: String,
}

/// The payload of a state query: the height it answers for and the key/value
/// pairs holding the canvas rows.
#[derive(Debug)]
pub struct ViewStateResponse {
    pub block_hash: String,
    pub block_height: u64,
    pub proof: Vec<String>,
    pub values: Vec<StateKeyValues>,
}

/// One key/value pair of a state query response, both sides base64 text.
#[derive(Debug)]
pub struct StateKeyValues {
    pub key: String,
    pub proof: Vec<String>,
    pub value: String,
}

/// The request text up to the queried height's digits: one JSON-RPC state
/// query for the canvas account, restricted to the row key prefix.
pub open spec fn spec_request_head() -> Seq<u8> {
    "{\"id\":\"123\",\"jsonrpc\":\"2.0\",\"method\":\"query\",\"params\":{\"account_id\":\"berryclub.ek.near\",\"block_id\":".spec_bytes()
}

/// The request text after the queried height's digits.
pub open spec fn spec_request_tail() -> Seq<u8> {
    ",\"prefix_base64\":\"cA==\",\"request_type\":\"view_state\"}}".spec_bytes()
}

/// The exact bytes of the state query request for one height: the fixed
/// JSON-RPC text around the height's decimal digits.
pub fn request_body(block_height: u64) -> (r: Vec<u8>)
    ensures
        exists|d: Seq<u8>|
            {
                &&& r@ == spec_request_head() + d + spec_request_tail()
                &&& #[trigger] crate::store::all_digits(d)
                &&& crate::store::dec_value(d) == block_height
                &&& d.len() >= 1
                &&& (block_height >= 1 ==> d[0] != 0x30)
            },
{
    let head: &str = "{\"id\":\"123\",\"jsonrpc\":\"2.0\",\"method\":\"query\",\"params\":{\"account_id\":\"berryclub.ek.near\",\"block_id\":";
    let tail: &str = ",\"prefix_base64\":\"cA==\",\"request_type\":\"view_state\"}}";
    let mut r = head.as_bytes_vec();
    let mut digits = crate::store::format_u64_decimal(block_height);
    let ghost d = digits@;
    r.append(&mut digits);
    let mut tail_bytes = tail.as_bytes_vec();
    r.append(&mut tail_bytes);
    proof {
        assert(r@ == spec_request_head() + d + spec_request_tail());
    }
    r
}

/// `p` is the first characters of `s`.
pub open spec fn spec_has_prefix(s: Seq<char>, p: Seq<char>) -> bool {
    p.len() <= s.len() && s.take(p.len() as int) == p
}

/// The text the ledger's store puts in front of an error payload that means
/// the queried height has no state: beyond the tip, or pruned.
pub open spec fn spec_not_found_text() -> Seq<char> {
    "DB Not Found Error"@
}

/// The payload's semantics indicate "height not found": its data or its
/// message carries the store's not-found text. Every other payload is a
/// condition worth retrying.
pub open spec fn spec_means_not_found(e: RpcError) -> bool {
    spec_has_prefix(e.data@, spec_not_found_text()) || spec_has_prefix(
        e.message@,
        spec_not_found_text(),
    )
}

/// Decides whether the text starts with the store's not-found marker.
fn has_not_found_text(s: &str) -> (r: bool)
    ensures
        r == spec_has_prefix(s@, spec_not_found_text()),
{
    let p = "DB Not Found Error";
    let n = p.unicode_len();
    if s.unicode_len() < n {
        return false;
    }
    let mut i: usize = 0;
    while i < n
        invariant
            p@ == spec_not_found_text(),
            n == p@.len(),
            n <= s@.len(),
            0 <= i <= n,
            forall|j: int| 0 <= j < i ==> s@[j] == p@[j],
        decreases n - i,
    {
        if s.get_char(i) != p.get_char(i) {
            assert(s@.take(p@.len() as int)[i as int] != p@[i as int]);
            return false;
        }
        i = i + 1;
    }
    assert(s@.take(p@.len() as int) =~= p@);
    true
}

/// What `base64::engine::general_purpose::STANDARD.decode` returns on this
/// text: a pure function of the characters alone, `None` where they are not
/// valid padded standard-alphabet base64.
pub uninterp spec fn b64_decode_of(s: Seq<char>) -> Option<Seq<u8>>;

/// Relies on base64's `Engine::decode` with the standard padded engine: the
/// decoded bytes depend on the input text alone; invalid input is an error.
#[verifier::external_body]
fn b64_decode(s: &str) -> (r: Option<Vec<u8>>)
    ensures
        match r {
            Some(v) => b64_decode_of(s@) == Some(v@),
            None => b64_decode_of(s@) is None,
        },
{
    match base64::Engine::decode(&base64::engine::general_purpose::STANDARD, s) {
        Ok(v) => Some(v),
        Err(_) => None,
    }
}

/// The all-default grid a decoded response starts from.
pub open spec fn blank_grid() -> Seq<Seq<Pixel>> {
    Seq::new(
        BOARD_HEIGHT as nat,
        |i: int| Seq::new(BOARD_WIDTH as nat, |j: int| Pixel::spec_default()),
    )
}

/// The row a well-formed value buffer holds.
pub open spec fn spec_row_pixels(vb: Seq<u8>) -> Seq<Pixel> {
    Seq::new(BOARD_WIDTH as nat, |j: int| spec_pixel_at(vb, 4 + 8 * j))
}

/// What one key/value pair does to the grid: the key names a row (one prefix
/// byte, then the row index as eight little-endian bytes), the value holds the
/// row's pixels; anything undecodable or out of range is a transient fault.
pub open spec fn spec_kv_apply(g: Seq<Seq<Pixel>>, kv: StateKeyValues) -> Result<
    Seq<Seq<Pixel>>,
    FetchError,
> {
    match b64_decode_of(kv.key@) {
        Option::None => Result::Err(FetchError::Transient),
        Option::Some(kb) => {
            if kb.len() != 9 {
                Result::Err(FetchError::Transient)
            } else {
                let row = le8_at(kb, 1);
                if row >= BOARD_HEIGHT {
                    Result::Err(FetchError::Transient)
                } else {
                    match b64_decode_of(kv.value@) {
                        Option::None => Result::Err(FetchError::Transient),
                        Option::Some(vb) => {
                            if vb.len() == 4 + 8 * BOARD_WIDTH && le4_at(vb, 0) == BOARD_WIDTH {
                                Result::Ok(g.update(row, spec_row_pixels(vb)))
                            } else {
                                Result::Err(FetchError::Transient)
                            }
                        },
                    }
                }
            }
        },
    }
}

/// The key/value pairs applied left to right, the first fault winning.
pub open spec fn spec_apply_kvs(g: Seq<Seq<Pixel>>, kvs: Seq<StateKeyValues>) -> Result<
    Seq<Seq<Pixel>>,
    FetchError,
>
    decreases kvs.len(),
{
    if kvs.len() == 0 {
        Result::Ok(g)
    } else {
        match spec_apply_kvs(g, kvs.drop_last()) {
            Result::Err(e) => Result::Err(e),
            Result::Ok(g2) => spec_kv_apply(g2, kvs.last()),
        }
    }
}

/// Once a prefix of the pairs faults, the whole sequence faults the same way.
proof fn lemma_apply_kvs_err_persists(g: Seq<Seq<Pixel>>, kvs: Seq<StateKeyValues>, i: int)
    requires
        0 <= i <= kvs.len(),
        spec_apply_kvs(g, kvs.take(i)) is Err,
    ensures
        spec_apply_kvs(g, kvs) == spec_apply_kvs(g, kvs.take(i)),
    decreases kvs.len() - i,
{
    if i < kvs.len() {
        assert(kvs.take(i + 1).drop_last() =~= kvs.take(i));
        assert(spec_apply_kvs(g, kvs.take(i + 1)) == spec_apply_kvs(g, kvs.take(i)));
        lemma_apply_kvs_err_persists(g, kvs, i + 1);
    } else {
        assert(kvs.take(i) =~= kvs);
    }
}

/// Decodes one state query response into a board. An error payload meaning
/// "height not found" is a hard miss; any other error payload, a missing
/// result or any undecodable row is a transient fault worth retrying;
/// otherwise every named row is written over an all-default grid and the
/// board carries the response's height.
pub fn decode_board(resp: JsonResponse<ViewStateResponse>) -> (r: Result<Board, FetchError>)
    ensures
        resp.error matches Some(e) ==> r == Result::<Board, FetchError>::Err(
            if spec_means_not_found(e) {
                FetchError::NotFound
            } else {
                FetchError::Transient
            },
        ),
        resp.error is None && resp.result is None ==> r == Result::<Board, FetchError>::Err(
            FetchError::Transient,
        ),
        resp.error is None ==> (resp.result matches Some(res) ==> match spec_apply_kvs(
            blank_grid(),
            res.values@,
        ) {
            Result::Ok(g) => {
                &&& r is Ok
                &&& r->Ok_0.grid() == g
                &&& r->Ok_0.block_height == res.block_height
                &&& r->Ok_0.wf_dims()
            },
            Result::Err(e) => r == Result::<Board, FetchError>::Err(e),
        }),
{
    match &resp.error {
        Some(e) => {
            if has_not_found_text(e.data.as_str()) || has_not_found_text(e.message.as_str()) {
                return Result::Err(FetchError::NotFound);
            } else {
                return Result::Err(FetchError::Transient);
            }
        },
        None => {},
    }
    let res = match resp.result {
        Some(res) => res,
        None => {
            return Result::Err(FetchError::Transient);
        },
    };
    let mut board = Board::blank(res.block_height);
    proof {
        assert(board.grid() =~~= blank_grid());
    }
    let mut i: usize = 0;
    while i < res.values.len()
        invariant
            resp.error is None,
            resp.result == Option::Some(res),
            0 <= i <= res.values@.len(),
            board.wf_dims(),
            board.block_height == res.block_height,
            spec_apply_kvs(blank_grid(), res.values@.take(i as int)) == Result::<
                Seq<Seq<Pixel>>,
                FetchError,
            >::Ok(board.grid()),
        decreases res.values@.len() - i,
    {
        let ghost prefix_ok = board.grid();
        let kv = &res.values[i];
        proof {
            assert(res.values@.take(i + 1).drop_last() =~= res.values@.take(i as int));
            assert(res.values@.take(i + 1).last() == res.values@[i as int]);
        }
        let kb = match b64_decode(kv.key.as_str()) {
            Some(v) => v,
            None => {
                proof {
                    lemma_apply_kvs_err_persists(blank_grid(), res.values@, i + 1);
                }
                return Result::Err(FetchError::Transient);
            },
        };
        if kb.len() != 9 {
            proof {
                lemma_apply_kvs_err_persists(blank_grid(), res.values@, i + 1);
            }
            return Result::Err(FetchError::Transient);
        }
        let (row64, _) = match read_u64_at(&kb, 1) {
            Some(v) => v,
            None => {
                // Unreachable: the key was just checked to hold nine bytes.
                return Result::Err(FetchError::Transient);
            },
        };
        if row64 >= BOARD_HEIGHT as u64 {
            proof {
                lemma_apply_kvs_err_persists(blank_grid(), res.values@, i + 1);
            }
            return Result::Err(FetchError::Transient);
        }
        let vb = match b64_decode(kv.value.as_str()) {
            Some(v) => v,
            None => {
                proof {
                    lemma_apply_kvs_err_persists(blank_grid(), res.values@, i + 1);
                }
                return Result::Err(FetchError::Transient);
            },
        };
        let row_pixels = match decode_row_vec(&vb) {
            Some(r) => r,
            None => {
                proof {
                    lemma_apply_kvs_err_persists(blank_grid(), res.values@, i + 1);
                }
                return Result::Err(FetchError::Transient);
            },
        };
        proof {
            assert(row_pixels@ =~= spec_row_pixels(vb@));
        }
        let slot = &mut board.pixels[row64 as usize];
        *slot = row_pixels;
        proof {
            assert(board.grid() =~= prefix_ok.update(row64 as int, spec_row_pixels(vb@)));
            assert(spec_kv_apply(prefix_ok, res.values@[i as int]) == Result::<
                Seq<Seq<Pixel>>,
                FetchError,
            >::Ok(board.grid()));
        }
        i = i + 1;
    }
    proof {
        assert(res.values@.take(res.values@.len() as int) =~= res.values@);
    }
    Result::Ok(board)
}

} // verus!

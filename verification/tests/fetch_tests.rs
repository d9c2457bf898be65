use base64::Engine;
use canvas_scan::fetch::{decode_board, request_body};

#[test]
fn request_text_is_the_fixed_query() {
    let body = request_body(21793900);
    let text = String::from_utf8(body).unwrap();
    assert_eq!(
        text,
        "{\"id\":\"123\",\"jsonrpc\":\"2.0\",\"method\":\"query\",\"params\":{\"account_id\":\"berryclub.ek.near\",\"block_id\":21793900,\"prefix_base64\":\"cA==\",\"request_type\":\"view_state\"}}"
    );
}
use canvas_scan::{FetchError, JsonResponse, Pixel, RpcError, StateKeyValues, ViewStateResponse};

fn b64(bytes: &[u8]) -> String {
    base64::engine::general_purpose::STANDARD.encode(bytes)
}

fn row_key(row: u64) -> String {
    let mut k = vec![0x70u8];
    k.extend_from_slice(&row.to_le_bytes());
    b64(&k)
}

fn row_value(pixels: &[(u32, u32)]) -> String {
    let mut v = Vec::new();
    v.extend_from_slice(&(pixels.len() as u32).to_le_bytes());
    for &(color, owner) in pixels {
        v.extend_from_slice(&color.to_le_bytes());
        v.extend_from_slice(&owner.to_le_bytes());
    }
    b64(&v)
}

fn envelope(
    result: Option<ViewStateResponse>,
    error: Option<RpcError>,
) -> JsonResponse<ViewStateResponse> {
    JsonResponse { id: "123".to_string(), jsonrpc: "2.0".to_string(), result, error }
}

fn state(block_height: u64, values: Vec<StateKeyValues>) -> ViewStateResponse {
    ViewStateResponse { block_hash: String::new(), block_height, proof: Vec::new(), values }
}

fn kv(key: String, value: String) -> StateKeyValues {
    StateKeyValues { key, proof: Vec::new(), value }
}

#[test]
fn decodes_rows_over_a_default_grid() {
    let mut row3 = vec![(0u32, 0u32); 50];
    row3[2] = (0xFF0000, 7);
    let resp = envelope(
        Some(state(1234, vec![kv(row_key(3), row_value(&row3))])),
        None,
    );
    let board = decode_board(resp).expect("a well-formed response decodes");
    assert_eq!(board.block_height, 1234);
    assert_eq!(board.pixels.len(), 50);
    assert_eq!(board.pixels[3][2], Pixel { color: 0xFF0000, owner_id: 7 });
    assert_eq!(board.pixels[3][3], Pixel { color: 0, owner_id: 0 });
    assert_eq!(board.pixels[0][0], Pixel { color: 0, owner_id: 0 });
}

#[test]
fn later_pairs_overwrite_earlier_ones() {
    let mut first = vec![(0u32, 0u32); 50];
    first[0] = (1, 1);
    let mut second = vec![(0u32, 0u32); 50];
    second[0] = (2, 2);
    let resp = envelope(
        Some(state(9, vec![
            kv(row_key(5), row_value(&first)),
            kv(row_key(5), row_value(&second)),
        ])),
        None,
    );
    let board = decode_board(resp).expect("decodes");
    assert_eq!(board.pixels[5][0], Pixel { color: 2, owner_id: 2 });
}

#[test]
fn not_found_payload_means_not_found() {
    let resp = envelope(
        None,
        Some(RpcError {
            code: -32000,
            data: "DB Not Found Error: BLOCK HEIGHT: 9".to_string(),
            message: "Server error".to_string(),
        }),
    );
    assert_eq!(decode_board(resp).unwrap_err(), FetchError::NotFound);
    let in_message = envelope(
        None,
        Some(RpcError {
            code: -32000,
            data: String::new(),
            message: "DB Not Found Error: BLOCK HEIGHT: 9".to_string(),
        }),
    );
    assert_eq!(decode_board(in_message).unwrap_err(), FetchError::NotFound);
}

#[test]
fn other_error_payloads_are_transient() {
    let rate_limited = envelope(
        None,
        Some(RpcError {
            code: -32000,
            data: "Timeout".to_string(),
            message: "Server error".to_string(),
        }),
    );
    assert_eq!(decode_board(rate_limited).unwrap_err(), FetchError::Transient);
}

#[test]
fn missing_result_is_transient() {
    let resp = envelope(None, None);
    assert_eq!(decode_board(resp).unwrap_err(), FetchError::Transient);
}

#[test]
fn undecodable_key_is_transient() {
    let row = vec![(0u32, 0u32); 50];
    let resp = envelope(
        Some(state(9, vec![kv("%%%".to_string(), row_value(&row))])),
        None,
    );
    assert_eq!(decode_board(resp).unwrap_err(), FetchError::Transient);
}

#[test]
fn short_key_is_transient() {
    let row = vec![(0u32, 0u32); 50];
    let key = b64(&[0x70, 1, 0, 0]);
    let resp = envelope(Some(state(9, vec![kv(key, row_value(&row))])), None);
    assert_eq!(decode_board(resp).unwrap_err(), FetchError::Transient);
}

#[test]
fn row_index_out_of_range_is_transient() {
    let row = vec![(0u32, 0u32); 50];
    let resp = envelope(
        Some(state(9, vec![kv(row_key(50), row_value(&row))])),
        None,
    );
    assert_eq!(decode_board(resp).unwrap_err(), FetchError::Transient);
}

#[test]
fn wrong_row_length_is_transient() {
    let short_row = vec![(0u32, 0u32); 49];
    let resp = envelope(
        Some(state(9, vec![kv(row_key(0), row_value(&short_row))])),
        None,
    );
    assert_eq!(decode_board(resp).unwrap_err(), FetchError::Transient);
}

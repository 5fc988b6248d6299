use bidder::request::{sort_requests, ProofRequest};

fn request(id: u8, gas_limit: u64, deadline: u64) -> ProofRequest {
    ProofRequest {
        request_id: vec![id; 32],
        gas_limit,
        deadline,
    }
}

fn ids(requests: Vec<ProofRequest>) -> Vec<u8> {
    requests.iter().map(|r| r.request_id[0]).collect()
}

#[test]
fn requests_go_by_gas_limit_and_then_deadline() {
    let sorted = sort_requests(vec![
        request(1, 30, 5),
        request(2, 10, 9),
        request(3, 20, 1),
        request(4, 10, 8),
        request(5, 0, u64::MAX),
        request(6, u64::MAX, 0),
    ]);
    assert_eq!(ids(sorted), vec![5, 4, 2, 3, 1, 6]);
}

#[test]
fn equal_requests_stay_in_order() {
    let sorted = sort_requests(vec![
        request(1, 10, 5),
        request(2, 10, 4),
        request(3, 10, 5),
        request(4, 10, 4),
        request(5, 10, 5),
    ]);
    assert_eq!(ids(sorted), vec![2, 4, 1, 3, 5]);
}

#[test]
fn nothing_to_sort() {
    assert!(sort_requests(vec![]).is_empty());
    assert_eq!(ids(sort_requests(vec![request(7, 1, 1)])), vec![7]);
}

#[test]
fn sorting_agrees_with_a_stable_sort() {
    let mut state: u64 = 12345;
    let mut requests = vec![];
    for i in 0..200u32 {
        state = state.wrapping_mul(6364136223846793005).wrapping_add(1442695040888963407);
        let mut r = request(0, (state >> 33) % 7, (state >> 40) % 5);
        r.request_id = i.to_be_bytes().to_vec();
        requests.push(r);
    }
    let mut expected = requests.clone();
    expected.sort_by_key(|r| (r.gas_limit, r.deadline));
    let keys = |rs: &Vec<ProofRequest>| -> Vec<(Vec<u8>, u64, u64)> {
        rs.iter().map(|r| (r.request_id.clone(), r.gas_limit, r.deadline)).collect()
    };
    assert_eq!(keys(&sort_requests(requests)), keys(&expected));
}

#[test]
fn identifiers_have_32_bytes() {
    for len in [0usize, 1, 31, 32, 33, 64] {
        let mut r = request(1, 1, 1);
        r.request_id = vec![0; len];
        assert_eq!(r.is_malformed(), len != 32);
    }
}

#[test]
fn identifiers_in_hexadecimal() {
    let mut r = request(0xa5, 1, 1);
    assert_eq!(r.request_id_hex(), "a5".repeat(32));
    r.request_id = vec![0, 1, 0x7f, 0x80, 0xff];
    assert_eq!(r.request_id_hex(), "00017f80ff");
    r.request_id = vec![];
    assert_eq!(r.request_id_hex(), "");
}

//! What is sent to a tracker over HTTP.

use vstd::prelude::*;
use vstd::string::StringExecFns;
use crate::random::random_byte;
use crate::text::{self, push_number};

verus! {

/// The first eight bytes of the peer ids of this client: `-RS0001-`.
pub open spec fn peer_id_prefix() -> Seq<u8> {
    seq![45u8, 82, 83, 48, 48, 48, 49, 45]
}

/// The peer id with the given last twelve bytes.
pub fn peer_id_with(suffix: [u8; 12]) -> (r: [u8; 20])
    ensures
        r@ == peer_id_prefix() + suffix@,
{
    let mut id: [u8; 20] = [45, 82, 83, 48, 48, 48, 49, 45, 0, 0, 0, 0, 0, 0, 0, 0, 0, 0, 0, 0];
    let mut i: usize = 0;
    while i < 12
        invariant
            i <= 12,
            id@ =~= peer_id_prefix() + suffix@.take(i as int) + Seq::new(
                (12 - i) as nat,
                |j: int| 0u8,
            ),
        decreases 12 - i,
    {
        id[8 + i] = suffix[i];
        i += 1;
    }
    assert(id@ =~= peer_id_prefix() + suffix@);
    id
}

/// A peer id of this client: its prefix, then characters from `0` to `z` by chance.
pub fn generate_peer_id() -> (r: [u8; 20])
    ensures
        r@.take(8) == peer_id_prefix(),
        forall|i: int| 8 <= i < 20 ==> 48 <= #[trigger] r@[i] <= 122,
{
    let mut suffix: [u8; 12] = [0; 12];
    let mut i: usize = 0;
    while i < 12
        invariant
            i <= 12,
            forall|j: int| 0 <= j < i ==> 48 <= #[trigger] suffix@[j] <= 122,
        decreases 12 - i,
    {
        suffix[i] = random_byte(48, 122);
        i += 1;
    }
    let id = peer_id_with(suffix);
    assert(id@.take(8) =~= peer_id_prefix());
    assert forall|k: int| 8 <= k < 20 implies 48 <= #[trigger] id@[k] <= 122 by {
        assert(id@[k] == suffix@[k - 8]);
    }
    id
}

/// The byte stands for itself in a query.
pub open spec fn is_unreserved(b: u8) -> bool {
    48 <= b <= 57 || 65 <= b <= 90 || 97 <= b <= 122 || b == 45 || b == 95 || b == 46 || b == 126
}

/// The character of a hexadecimal digit, in upper case.
pub open spec fn hex_upper(d: u8) -> char {
    if d < 10 {
        (48 + d) as char
    } else {
        (55 + d) as char
    }
}

/// How a byte stands in a query: as itself, or as a percent sign and two hexadecimal digits.
pub open spec fn byte_in_query(b: u8) -> Seq<char> {
    if is_unreserved(b) {
        seq![b as char]
    } else {
        seq!['%', hex_upper(b / 16), hex_upper(b % 16)]
    }
}

/// How a byte string stands in a query.
pub open spec fn bytes_in_query(s: Seq<u8>) -> Seq<char>
    decreases s.len(),
{
    if s.len() == 0 {
        Seq::empty()
    } else {
        byte_in_query(s[0]) + bytes_in_query(s.skip(1))
    }
}

fn hex_digit(d: u8) -> (r: char)
    requires
        d < 16,
    ensures
        r == hex_upper(d),
{
    if d < 10 {
        (48 + d) as char
    } else {
        (55 + d) as char
    }
}

/// Writes a byte string for a query.
pub fn urlencode_binary(bytes: &[u8]) -> (r: String)
    ensures
        r@ == bytes_in_query(bytes@),
{
    let mut result = String::new();
    let mut i: usize = 0;
    assert(bytes@.skip(0) =~= bytes@);
    assert(result@ + bytes_in_query(bytes@) =~= bytes_in_query(bytes@));
    while i < bytes.len()
        invariant
            i <= bytes.len(),
            result@ + bytes_in_query(bytes@.skip(i as int)) == bytes_in_query(bytes@),
        decreases bytes.len() - i,
    {
        let b = bytes[i];
        let ghost before = result@;
        let ghost rest = bytes@.skip(i as int);
        if (48 <= b && b <= 57) || (65 <= b && b <= 90) || (97 <= b && b <= 122) || b == 45 || b
            == 95 || b == 46 || b == 126 {
            result.push(b as char);
        } else {
            result.push('%');
            result.push(hex_digit(b / 16));
            result.push(hex_digit(b % 16));
        }
        proof {
            assert(result@ =~= before + byte_in_query(b));
            assert(rest.skip(1) =~= bytes@.skip(i + 1));
            assert(result@ + bytes_in_query(bytes@.skip(i + 1)) =~= before + bytes_in_query(rest));
        }
        i += 1;
    }
    assert(bytes@.skip(i as int) =~= Seq::<u8>::empty());
    assert(result@ =~= bytes_in_query(bytes@));
    result
}

/// The value of a hexadecimal digit.
pub open spec fn hex_value(c: char) -> int {
    if c <= '9' {
        c as int - 48
    } else {
        c as int - 55
    }
}

/// The byte string that a text in a query stands for.
pub open spec fn query_bytes(t: Seq<char>) -> Seq<u8>
    decreases t.len(),
{
    if t.len() == 0 {
        Seq::empty()
    } else if t[0] == '%' && t.len() >= 3 {
        seq![(16 * hex_value(t[1]) + hex_value(t[2])) as u8] + query_bytes(t.skip(3))
    } else {
        seq![t[0] as u8] + query_bytes(t.skip(1))
    }
}

/// A byte string can be read back from a query, so no two stand in it alike.
pub proof fn law_query_reads_back(s: Seq<u8>)
    ensures
        query_bytes(bytes_in_query(s)) == s,
    decreases s.len(),
{
    let t = bytes_in_query(s);
    if s.len() == 0 {
        assert(query_bytes(t) =~= s);
    } else {
        law_query_reads_back(s.skip(1));
        let head = byte_in_query(s[0]);
        assert(t.skip(head.len() as int) =~= bytes_in_query(s.skip(1)));
        if is_unreserved(s[0]) {
            assert(t[0] == s[0] as char);
        } else {
            assert(t[1] == hex_upper(s[0] / 16));
            assert(t[2] == hex_upper(s[0] % 16));
        }
        assert(query_bytes(t) =~= s);
    }
}

/// A byte string stands in a query part by part.
pub proof fn law_query_joins(a: Seq<u8>, b: Seq<u8>)
    ensures
        bytes_in_query(a + b) == bytes_in_query(a) + bytes_in_query(b),
    decreases a.len(),
{
    if a.len() == 0 {
        assert(a + b =~= b);
        assert(bytes_in_query(a) + bytes_in_query(b) =~= bytes_in_query(b));
    } else {
        law_query_joins(a.skip(1), b);
        assert((a + b).skip(1) =~= a.skip(1) + b);
        assert(bytes_in_query(a + b) =~= bytes_in_query(a) + bytes_in_query(b));
    }
}

/// Tells whether `c` occurs in `s`.
fn has_char(s: &str, c: char) -> (r: bool)
    ensures
        r == s@.contains(c),
{
    let mut found = false;
    for x in it: s.chars()
        invariant
            it.seq() == s@,
            found <==> exists|j: int| 0 <= j < it.index() && #[trigger] s@[j] == c,
    {
        if x == c {
            found = true;
        }
    }
    found
}

/// The address under which a tracker is asked for peers.
pub open spec fn announce_url_text(
    tracker_url: Seq<char>,
    info_hash: Seq<u8>,
    peer_id: Seq<u8>,
    port: nat,
    left: nat,
) -> Seq<char> {
    tracker_url + seq![
        if tracker_url.contains('?') {
            '&'
        } else {
            '?'
        },
    ] + "info_hash="@ + bytes_in_query(info_hash) + "&peer_id="@ + bytes_in_query(peer_id)
        + "&port="@ + text::number_text(port)
        + "&uploaded=0&downloaded=0&left="@ + text::number_text(left)
        + "&compact=1"@
}

/// Builds the address under which a tracker is asked for peers. All of the content is left to
/// download.
pub fn announce_url(
    tracker_url: &str,
    info_hash: &[u8; 20],
    peer_id: &[u8; 20],
    port: u16,
    left: usize,
) -> (r: String)
    ensures
        r@ == announce_url_text(tracker_url@, info_hash@, peer_id@, port as nat, left as nat),
{
    let mut url = tracker_url.to_owned();
    url.push(
        if has_char(tracker_url, '?') {
            '&'
        } else {
            '?'
        },
    );
    url.append("info_hash=");
    url.append(urlencode_binary(info_hash.as_slice()).as_str());
    url.append("&peer_id=");
    url.append(urlencode_binary(peer_id.as_slice()).as_str());
    url.append("&port=");
    push_number(&mut url, port as u64);
    url.append("&uploaded=0&downloaded=0&left=");
    push_number(&mut url, left as u64);
    url.append("&compact=1");
    assert(url@ =~= announce_url_text(
        tracker_url@,
        info_hash@,
        peer_id@,
        port as nat,
        left as nat,
    ));
    url
}

} // verus!

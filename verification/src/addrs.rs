//! Address-file lines: each useful line holds an IP and a port separated by
//! whitespace, and becomes one `ip:port` endpoint string.

use vstd::prelude::*;

use crate::bytes::push_all;
use crate::bytes::split_at_byte;
use crate::bytes::split_bytes;
use crate::bytes::trim_bytes;
use crate::bytes::trim_spec;
use crate::bytes::views;

verus! {

/// The nonempty space-separated tokens of a trimmed line.
pub open spec fn line_tokens(line: Seq<u8>) -> Seq<Seq<u8>> {
    split_bytes(trim_spec(line), 32).map_values(|t: Seq<u8>| trim_spec(t)).filter(
        |t: Seq<u8>| t.len() != 0,
    )
}

/// Reads one address-file line: `Some((ip, port))` exactly when the line
/// holds two tokens, `None` for blank lines and lines of any other shape,
/// which the caller logs and skips.
pub fn parse_addr_line(line: &[u8]) -> (r: Option<(Vec<u8>, Vec<u8>)>)
    ensures
        line_tokens(line@).len() == 2 ==> r is Some && (r->0).0@ == line_tokens(line@)[0] && (
        r->0).1@ == line_tokens(line@)[1],
        line_tokens(line@).len() != 2 ==> r is None,
{
    let trimmed = trim_bytes(line);
    let raw_tokens = split_at_byte(trimmed.as_slice(), 32);
    let mut tokens: Vec<Vec<u8>> = Vec::new();
    let ghost mapped = views(raw_tokens@).map_values(|t: Seq<u8>| trim_spec(t));
    let mut i: usize = 0;
    proof {
        reveal(Seq::filter);
        assert(mapped.take(0) =~= Seq::<Seq<u8>>::empty());
        assert(views(tokens@) =~= mapped.take(0).filter(|t: Seq<u8>| t.len() != 0));
    }
    while i < raw_tokens.len()
        invariant
            0 <= i <= raw_tokens@.len(),
            mapped == views(raw_tokens@).map_values(|t: Seq<u8>| trim_spec(t)),
            views(tokens@) == mapped.take(i as int).filter(|t: Seq<u8>| t.len() != 0),
        decreases raw_tokens@.len() - i,
    {
        let t = trim_bytes(raw_tokens[i].as_slice());
        proof {
            reveal(Seq::filter);
            assert(mapped[i as int] == trim_spec(raw_tokens@[i as int]@));
            assert(t@ == mapped[i as int]);
            assert(mapped.take(i + 1 as int).drop_last() =~= mapped.take(i as int));
            assert(mapped.take(i + 1 as int).last() == mapped[i as int]);
        }
        if t.len() > 0 {
            let ghost v0 = views(tokens@);
            tokens.push(t);
            proof {
                assert(views(tokens@) =~= v0.push(mapped[i as int]));
            }
        }
        i += 1;
    }
    proof {
        assert(mapped.take(mapped.len() as int) =~= mapped);
        assert(views(tokens@) == line_tokens(line@));
    }
    if tokens.len() == 2 {
        let mut port = tokens.pop().unwrap();
        let mut ip = tokens.pop().unwrap();
        proof {
            assert(ip@ == line_tokens(line@)[0]);
            assert(port@ == line_tokens(line@)[1]);
        }
        Some((ip, port))
    } else {
        None
    }
}

/// Joins parallel IP and port lists into `ip:port` endpoint strings, as
/// the bootstrap reads them from an address file.
pub fn get_ips(ips: &Vec<Vec<u8>>, ports: &Vec<Vec<u8>>) -> (r: Vec<Vec<u8>>)
    requires
        ips@.len() == ports@.len(),
    ensures
        r@.len() == ips@.len(),
        forall|j: int|
            0 <= j < r@.len() ==> #[trigger] r@[j]@ == ips@[j]@ + seq![58u8] + ports@[j]@,
{
    let mut r: Vec<Vec<u8>> = Vec::new();
    let mut i: usize = 0;
    while i < ips.len()
        invariant
            0 <= i <= ips@.len(),
            ips@.len() == ports@.len(),
            r@.len() == i,
            forall|j: int|
                0 <= j < i ==> #[trigger] r@[j]@ == ips@[j]@ + seq![58u8] + ports@[j]@,
        decreases ips@.len() - i,
    {
        let mut e: Vec<u8> = Vec::new();
        push_all(&mut e, ips[i].as_slice());
        e.push(58);
        push_all(&mut e, ports[i].as_slice());
        proof {
            assert(e@ =~= ips@[i as int]@ + seq![58u8] + ports@[i as int]@);
        }
        r.push(e);
        i += 1;
    }
    r
}

} // verus!

use vstd::prelude::*;

verus! {

use crate::bittorrent::{AnnounceResponse, ScrapeFile, ScrapeResponse};
use vstd::string::StringSliceAdditionalSpecFns;

/// Decimal digits of `n`, most significant first.
pub open spec fn spec_digits(n: int) -> Seq<u8>
    decreases n,
{
    if n < 10 {
        seq![(48 + if n >= 0 { n } else { 0 }) as u8]
    } else {
        spec_digits(n / 10).push((48 + n % 10) as u8)
    }
}

/// Bencoded integer: `i<digits>e`.
pub open spec fn spec_benc_int(n: int) -> Seq<u8> {
    seq![105u8] + spec_digits(n) + seq![101u8]
}

/// Bencoded byte string: `<len>:<bytes>`.
pub open spec fn spec_benc_bytes(b: Seq<u8>) -> Seq<u8> {
    spec_digits(b.len() as int) + seq![58u8] + b
}

/// Bencoded byte string holding the UTF-8 bytes of a text value.
pub open spec fn spec_benc_str(s: &str) -> Seq<u8> {
    spec_benc_bytes(s.spec_bytes())
}

/// Appends the decimal digits of `n` to `out`.
pub fn push_digits(n: u64, out: &mut Vec<u8>)
    ensures
        final(out)@ == old(out)@ + spec_digits(n as int),
    decreases n,
{
    if n < 10 {
        out.push((48 + n) as u8);
        proof {
            assert(final(out)@ =~= old(out)@ + spec_digits(n as int));
        }
    } else {
        push_digits(n / 10, out);
        out.push((48 + n % 10) as u8);
        proof {
            assert(final(out)@ =~= old(out)@ + spec_digits(n as int));
        }
    }
}

/// Appends `i<n>e` to `out`.
pub fn push_benc_int(n: u64, out: &mut Vec<u8>)
    ensures
        final(out)@ == old(out)@ + spec_benc_int(n as int),
{
    out.push(105);
    push_digits(n, out);
    out.push(101);
    proof {
        assert(final(out)@ =~= old(out)@ + spec_benc_int(n as int));
    }
}

/// Appends `<len>:<bytes>` to `out`.
pub fn push_benc_bytes(b: &[u8], out: &mut Vec<u8>)
    ensures
        final(out)@ == old(out)@ + spec_benc_bytes(b@),
{
    push_digits(b.len() as u64, out);
    out.push(58);
    out.extend_from_slice(b);
    proof {
        assert(final(out)@ =~= old(out)@ + spec_benc_bytes(b@));
    }
}

/// Appends the bencoding of a text value to `out`.
pub fn push_benc_str(s: &str, out: &mut Vec<u8>)
    ensures
        final(out)@ == old(out)@ + spec_benc_str(s),
{
    push_benc_bytes(s.as_bytes(), out);
}

/// The announce body: a failure dict carrying only `failure_reason`,
/// or the success dict with its keys in lexicographic order and both
/// compact peer lists as byte strings.
pub open spec fn spec_announce_response(r: AnnounceResponse) -> Seq<u8> {
    match r.failure_reason {
        Some(m) => seq![100u8] + spec_benc_str("failure_reason") + spec_benc_bytes(
            crate::util::string_bytes(m@),
        ) + seq![101u8],
        None => seq![100u8] + spec_benc_str("complete") + spec_benc_int(r.complete as int)
            + spec_benc_str("incomplete") + spec_benc_int(r.incomplete as int) + spec_benc_str(
            "interval",
        ) + spec_benc_int(r.interval as int) + (match r.min_interval {
            Some(m) => spec_benc_str("min_interval") + spec_benc_int(m as int),
            None => Seq::empty(),
        }) + spec_benc_str("peers") + spec_benc_bytes(
            crate::bittorrent::spec_compact_v4_list(r.peers@),
        ) + spec_benc_str("peers6") + spec_benc_bytes(
            crate::bittorrent::spec_compact_v6_list(r.peers6@),
        ) + spec_benc_str("tracker_id") + spec_benc_bytes(crate::util::string_bytes(r.tracker_id@))
            + seq![101u8],
    }
}

/// Serializes an announce response into its bencoded wire form.
pub fn encode_announce_response(response: AnnounceResponse) -> (out: Vec<u8>)
    ensures
        out@ == spec_announce_response(response),
{
    let mut out: Vec<u8> = Vec::new();
    match &response.failure_reason {
        Some(m) => {
            out.push(100);
            push_benc_str("failure_reason", &mut out);
            push_benc_bytes(m.as_str().as_bytes(), &mut out);
            out.push(101);
            proof {
                assert(out@ =~= spec_announce_response(response));
            }
        },
        None => {
            out.push(100);
            push_benc_str("complete", &mut out);
            push_benc_int(response.complete as u64, &mut out);
            push_benc_str("incomplete", &mut out);
            push_benc_int(response.incomplete as u64, &mut out);
            push_benc_str("interval", &mut out);
            push_benc_int(response.interval as u64, &mut out);
            match &response.min_interval {
                Some(m) => {
                    push_benc_str("min_interval", &mut out);
                    push_benc_int(*m as u64, &mut out);
                },
                None => {},
            }
            push_benc_str("peers", &mut out);
            let compact4 = response.peersv4_as_compact();
            push_benc_bytes(compact4.as_slice(), &mut out);
            push_benc_str("peers6", &mut out);
            let compact6 = response.peersv6_as_compact();
            push_benc_bytes(compact6.as_slice(), &mut out);
            push_benc_str("tracker_id", &mut out);
            push_benc_bytes(response.tracker_id.as_str().as_bytes(), &mut out);
            out.push(101);
            proof {
                assert(out@ =~= spec_announce_response(response));
            }
        },
    }
    out
}

/// One torrent's dict inside a scrape body.
pub open spec fn spec_scrape_file_dict(f: ScrapeFile) -> Seq<u8> {
    seq![100u8] + spec_benc_str("complete") + spec_benc_int(f.complete as int) + spec_benc_str(
        "downloaded",
    ) + spec_benc_int(f.downloaded as int) + spec_benc_str("incomplete") + spec_benc_int(
        f.incomplete as int,
    ) + (match f.name {
        Some(n) => spec_benc_str("name") + spec_benc_bytes(crate::util::string_bytes(n@)),
        None => Seq::empty(),
    }) + seq![101u8]
}

/// The `files` entries of a scrape body, in stored (sorted) order.
pub open spec fn spec_scrape_files(entries: Seq<(Vec<u8>, ScrapeFile)>) -> Seq<u8>
    decreases entries.len(),
{
    if entries.len() == 0 {
        Seq::empty()
    } else {
        spec_scrape_files(entries.drop_last()) + spec_benc_bytes(entries.last().0@)
            + spec_scrape_file_dict(entries.last().1)
    }
}

/// The scrape body: a failure dict, or `{files: {...}}`.
pub open spec fn spec_scrape_response(r: ScrapeResponse) -> Seq<u8> {
    match r.failure_reason {
        Some(m) => seq![100u8] + spec_benc_str("failure_reason") + spec_benc_bytes(
            crate::util::string_bytes(m@),
        ) + seq![101u8],
        None => seq![100u8] + spec_benc_str("files") + seq![100u8] + spec_scrape_files(r.files@)
            + seq![101u8] + seq![101u8],
    }
}

/// Serializes a scrape response into its bencoded wire form.
#[verifier::rlimit(100)]
pub fn encode_scrape_response(response: ScrapeResponse) -> (out: Vec<u8>)
    ensures
        out@ == spec_scrape_response(response),
{
    let mut out: Vec<u8> = Vec::new();
    match &response.failure_reason {
        Some(m) => {
            out.push(100);
            push_benc_str("failure_reason", &mut out);
            push_benc_bytes(m.as_str().as_bytes(), &mut out);
            out.push(101);
            proof {
                assert(out@ =~= spec_scrape_response(response));
            }
        },
        None => {
            out.push(100);
            push_benc_str("files", &mut out);
            out.push(100);
            let ghost head = out@;
            let mut i: usize = 0;
            while i < response.files.len()
                invariant
                    i <= response.files@.len(),
                    out@ == head + spec_scrape_files(response.files@.take(i as int)),
                decreases response.files@.len() - i,
            {
                proof {
                    assert(response.files@.take(i + 1 as int).drop_last() =~= response.files@.take(
                        i as int,
                    ));
                    assert(response.files@.take(i + 1 as int).last() == response.files@[i as int]);
                }
                push_benc_bytes(response.files[i].0.as_slice(), &mut out);
                out.push(100);
                push_benc_str("complete", &mut out);
                push_benc_int(response.files[i].1.complete as u64, &mut out);
                push_benc_str("downloaded", &mut out);
                push_benc_int(response.files[i].1.downloaded as u64, &mut out);
                push_benc_str("incomplete", &mut out);
                push_benc_int(response.files[i].1.incomplete as u64, &mut out);
                match &response.files[i].1.name {
                    Some(n) => {
                        push_benc_str("name", &mut out);
                        push_benc_bytes(n.as_str().as_bytes(), &mut out);
                    },
                    None => {},
                }
                out.push(101);
                proof {
                    assert(out@ =~= head + spec_scrape_files(response.files@.take(i + 1 as int)));
                }
                i += 1;
            }
            proof {
                assert(response.files@.take(response.files@.len() as int) =~= response.files@);
            }
            out.push(101);
            out.push(101);
            proof {
                assert(out@ =~= spec_scrape_response(response));
            }
        },
    }
    out
}

} // verus!

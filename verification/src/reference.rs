//! The built-in reference-value store: a log of (claim key, digest)
//! rows.  A lookup returns every digest recorded for a key, in the order
//! of ingestion; a key with no rows yields the empty list, which is a
//! valid, non-error state.  Ingestion accepts a provenance message whose
//! first line must be the hex SHA-384 checksum of the remainder; a
//! message failing that integrity check is rejected whole.

use vstd::prelude::*;
use crate::claims::entries_view;
use crate::encoding::{blobs_view, hex_bytes, hex_of};
use crate::errors::Error;
use crate::evidence::{bytes_eq, find_byte, split_lines, split_lines_exec, copy_range, scan_byte};
use crate::hash::{sha384, sha384_of};

verus! {

/// The store of acceptable provenance digests, keyed by normalized claim
/// key.
pub struct ReferenceValueStore {
    rows: Vec<(Vec<u8>, Vec<u8>)>,
}

/// Every digest recorded for `key`, in ingestion order.
pub open spec fn ref_lookup(rows: Seq<(Seq<u8>, Seq<u8>)>, key: Seq<u8>) -> Seq<Seq<u8>>
    decreases rows.len(),
{
    if rows.len() == 0 {
        Seq::empty()
    } else {
        ref_lookup(rows.drop_last(), key) + if rows.last().0 == key {
            seq![rows.last().1]
        } else {
            Seq::empty()
        }
    }
}

/// What one provenance row asserts: a normalized claim key and one
/// acceptable digest, split at the first `=`; nothing if the row has no
/// `=` or an empty key.  Unlike an evidence claim line, the key here is
/// a full namespaced key and may contain the separator.
pub open spec fn parse_ref_line(l: Seq<u8>) -> Option<(Seq<u8>, Seq<u8>)> {
    let e = find_byte(l, 61);
    if 0 < e < l.len() {
        Some((l.take(e), l.skip(e + 1)))
    } else {
        None
    }
}

/// The rows of the payload lines from index `i` on, or nothing if some
/// row is malformed.
pub open spec fn parse_ref_lines(lines: Seq<Seq<u8>>, i: int) -> Option<Seq<(Seq<u8>, Seq<u8>)>>
    decreases lines.len() - i,
{
    if i < 0 || i >= lines.len() {
        Some(Seq::empty())
    } else {
        match parse_ref_line(lines[i]) {
            None => None,
            Some(pair) => match parse_ref_lines(lines, i + 1) {
                None => None,
                Some(rest) => Some(seq![pair] + rest),
            },
        }
    }
}

/// Parses the payload lines as provenance rows, matching
/// `parse_ref_lines`.
fn parse_ref_lines_exec(lines: &Vec<Vec<u8>>) -> (r: Option<Vec<(Vec<u8>, Vec<u8>)>>)
    ensures
        match r {
            Some(v) => parse_ref_lines(lines.deep_view(), 0) == Some(entries_view(v@)),
            None => parse_ref_lines(lines.deep_view(), 0) is None,
        },
{
    let ghost lv = lines.deep_view();
    let mut out: Vec<(Vec<u8>, Vec<u8>)> = Vec::new();
    let mut i: usize = 0;
    while i < lines.len()
        invariant
            i <= lines@.len(),
            lines.deep_view() == lv,
            parse_ref_lines(lv, 0) is Some <==> parse_ref_lines(lv, i as int) is Some,
            parse_ref_lines(lv, 0) is Some ==> parse_ref_lines(lv, 0).unwrap() == entries_view(
                out@,
            ) + parse_ref_lines(lv, i as int).unwrap(),
        decreases lines@.len() - i,
    {
        let line = &lines[i];
        proof {
            assert(line@ == lv[i as int]);
        }
        let e = scan_byte(line, 0, 61);
        proof {
            assert(line@.skip(0) =~= line@);
        }
        if e == 0 || e >= line.len() {
            proof {
                assert(parse_ref_line(lv[i as int]) is None);
                assert(parse_ref_lines(lv, i as int) is None);
            }
            return None;
        }
        let key = copy_range(line, 0, e);
        let value = copy_range(line, e + 1, line.len());
        proof {
            assert(key@ =~= line@.take(e as int));
            assert(value@ =~= line@.skip(e + 1 as int));
            assert(parse_ref_line(lv[i as int]) == Some((key@, value@)));
        }
        let ghost out_before = out@;
        let ghost pair = (key@, value@);
        out.push((key, value));
        proof {
            let rest = parse_ref_lines(lv, i + 1 as int);
            assert(parse_ref_lines(lv, i as int) is Some <==> rest is Some);
            if parse_ref_lines(lv, 0) is Some {
                assert(entries_view(out@) =~= entries_view(out_before).push(pair));
                assert(entries_view(out_before) + (seq![pair] + rest.unwrap()) =~= entries_view(
                    out_before,
                ).push(pair) + rest.unwrap());
            }
        }
        i = i + 1;
    }
    proof {
        assert(parse_ref_lines(lv, lv.len() as int) == Some(Seq::<(Seq<u8>, Seq<u8>)>::empty()));
        assert(parse_ref_lines(lv, 0) is Some);
        assert(entries_view(out@) + Seq::<(Seq<u8>, Seq<u8>)>::empty() =~= entries_view(out@));
    }
    Some(out)
}

/// What a provenance message asserts: the (key, digest) rows of its
/// payload, provided its first line is the hex SHA-384 checksum of the
/// payload; nothing when the message fails that check or is malformed.
pub open spec fn ingest_spec(msg: Seq<u8>) -> Option<Seq<(Seq<u8>, Seq<u8>)>> {
    let i = find_byte(msg, 10);
    if i < 0 || i >= msg.len() {
        None
    } else if msg.take(i) != hex_of(sha384_of(msg.skip(i + 1))) {
        None
    } else {
        parse_ref_lines(split_lines(msg.skip(i + 1)), 0)
    }
}

impl ReferenceValueStore {
    /// The rows of the store.
    pub closed spec fn view_rows(&self) -> Seq<(Seq<u8>, Seq<u8>)> {
        entries_view(self.rows@)
    }

    /// Creates an empty store.
    pub fn new() -> (r: Self)
        ensures
            r.view_rows() == Seq::<(Seq<u8>, Seq<u8>)>::empty(),
    {
        let r = ReferenceValueStore { rows: Vec::new() };
        proof {
            assert(r.view_rows() =~= Seq::<(Seq<u8>, Seq<u8>)>::empty());
        }
        r
    }

    /// Returns every digest recorded for the key; the empty list when
    /// none is, which is not an error.
    pub fn get_digests(&self, key: &Vec<u8>) -> (r: Vec<Vec<u8>>)
        ensures
            blobs_view(r@) == ref_lookup(self.view_rows(), key@),
    {
        let mut r: Vec<Vec<u8>> = Vec::new();
        let mut i: usize = 0;
        while i < self.rows.len()
            invariant
                i <= self.rows@.len(),
                blobs_view(r@) == ref_lookup(self.view_rows().take(i as int), key@),
            decreases self.rows@.len() - i,
        {
            let ghost pre = self.view_rows().take(i as int);
            let ghost rprev = blobs_view(r@);
            if bytes_eq(&self.rows[i].0, key) {
                let d = copy_range(&self.rows[i].1, 0, self.rows[i].1.len());
                proof {
                    assert(d@ =~= self.rows@[i as int].1@);
                }
                r.push(d);
                proof {
                    assert(blobs_view(r@) =~= rprev.push(self.rows@[i as int].1@));
                }
            }
            proof {
                let cur = self.view_rows().take(i + 1 as int);
                assert(cur.drop_last() =~= pre);
                assert(cur.last() == self.view_rows()[i as int]);
                assert(self.view_rows()[i as int]
                    == (self.rows@[i as int].0@, self.rows@[i as int].1@));
                if self.rows@[i as int].0@ == key@ {
                    assert(blobs_view(r@) =~= ref_lookup(pre, key@) + seq![cur.last().1]);
                } else {
                    assert(blobs_view(r@) =~= ref_lookup(pre, key@) + Seq::<Seq<u8>>::empty());
                }
                assert(blobs_view(r@) == ref_lookup(cur, key@));
            }
            i = i + 1;
        }
        proof {
            assert(self.view_rows().take(self.view_rows().len() as int) =~= self.view_rows());
        }
        r
    }

    /// Verifies a provenance message's checksum and records the digests
    /// it asserts.  The store is extended atomically, or on failure left
    /// unmodified.
    pub fn verify_and_extract(&mut self, message: &Vec<u8>) -> (r: Result<(), Error>)
        ensures
            match r {
                Ok(()) => ingest_spec(message@) matches Some(pairs) && final(self).view_rows()
                    == old(self).view_rows() + pairs,
                Err(e) => {
                    &&& e == Error::InvalidProvenance
                    &&& ingest_spec(message@) is None
                    &&& final(self).view_rows() == old(self).view_rows()
                },
            },
    {
        let i = crate::evidence::scan_byte(message, 0, 10);
        proof {
            assert(message@.skip(0) =~= message@);
        }
        if i >= message.len() {
            return Err(Error::InvalidProvenance);
        }
        let check = copy_range(message, 0, i);
        let payload = copy_range(message, i + 1, message.len());
        proof {
            assert(check@ =~= message@.take(i as int));
            assert(payload@ =~= message@.skip(i + 1 as int));
        }
        let digest = sha384(&payload);
        let expect = hex_bytes(&digest);
        if !bytes_eq(&check, &expect) {
            return Err(Error::InvalidProvenance);
        }
        let lines = split_lines_exec(&payload);
        let parsed = parse_ref_lines_exec(&lines);
        match parsed {
            None => Err(Error::InvalidProvenance),
            Some(pairs) => {
                let ghost pv = crate::claims::entries_view(pairs@);
                let ghost rows0 = entries_view(self.rows@);
                let mut k: usize = 0;
                while k < pairs.len()
                    invariant
                        k <= pairs@.len(),
                        pv == crate::claims::entries_view(pairs@),
                        entries_view(self.rows@) == rows0 + pv.take(k as int),
                    decreases pairs@.len() - k,
                {
                    let key = copy_range(&pairs[k].0, 0, pairs[k].0.len());
                    let value = copy_range(&pairs[k].1, 0, pairs[k].1.len());
                    proof {
                        assert(key@ =~= pairs@[k as int].0@);
                        assert(value@ =~= pairs@[k as int].1@);
                    }
                    let ghost rows_prev = self.rows@;
                    self.rows.push((key, value));
                    proof {
                        assert(entries_view(self.rows@) =~= entries_view(rows_prev).push(
                            (key@, value@),
                        ));
                        assert(pv.take(k + 1 as int) =~= pv.take(k as int).push(pv[k as int]));
                        assert(entries_view(self.rows@) =~= rows0 + pv.take(k + 1 as int));
                    }
                    k = k + 1;
                }
                proof {
                    assert(pv.take(pv.len() as int) =~= pv);
                    assert(ingest_spec(message@) == Some(pv));
                }
                Ok(())
            },
        }
    }
}

} // verus!

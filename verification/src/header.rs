use vstd::prelude::*;

use crate::errors::NrrdError;
use crate::metadata::Metadata;
use crate::scan::{find_from, find_byte, trimmed, trim_copy, copy_range, lemma_find_from_is};

verus! {

/// The seven bytes every recognized magic line starts with: `NRRD000`.
pub open spec fn magic_prefix() -> Seq<u8> {
    seq![78u8, 82u8, 82u8, 68u8, 48u8, 48u8, 48u8]
}

/// Whether `l` is one of the recognized magic lines `NRRD0003`, `NRRD0004`,
/// `NRRD0005`.
pub open spec fn is_magic(l: Seq<u8>) -> bool {
    l.len() == 8 && l.subrange(0, 7) == magic_prefix() && (l[7] == 51 || l[7] == 52 || l[7] == 53)
}

/// End of the line that starts at `i`: the index of the next newline byte, or
/// the end of the buffer.
pub open spec fn line_end(buf: Seq<u8>, i: int) -> int {
    find_from(buf, i, 10)
}

/// The first line of the buffer.
pub open spec fn first_line(buf: Seq<u8>) -> Seq<u8> {
    let e = line_end(buf, 0);
    if 0 <= e <= buf.len() {
        buf.subrange(0, e)
    } else {
        buf
    }
}

/// Where the second line starts: one past the first newline, or the end of
/// the buffer when the first line has no terminator.
pub open spec fn body_start(buf: Seq<u8>) -> int {
    let e = line_end(buf, 0);
    if 0 <= e < buf.len() {
        e + 1
    } else {
        buf.len() as int
    }
}

/// How one header line changes the mapping.  A line without a colon and a
/// line whose trimmed key starts with `#` are skipped; otherwise the trimmed
/// key and value are stored, a value's single leading `=` being dropped (and
/// the rest re-trimmed) first.
pub open spec fn apply_line(m: Map<Seq<u8>, Seq<u8>>, line: Seq<u8>) -> Map<Seq<u8>, Seq<u8>> {
    let c = find_from(line, 0, 58);
    if !(0 <= c < line.len()) {
        m
    } else {
        let k = trimmed(line.subrange(0, c));
        let v0 = trimmed(line.subrange(c + 1, line.len() as int));
        if k.len() > 0 && k[0] == 35 {
            m
        } else {
            let v = if v0.len() > 0 && v0[0] == 61 {
                trimmed(v0.drop_first())
            } else {
                v0
            };
            m.insert(k, v)
        }
    }
}

/// Folds `apply_line` over the header lines from offset `i` on.  The result
/// is the finished mapping and the offset where the payload starts: one past
/// the blank line that ends the header, or the end of the buffer when no
/// blank line comes.
pub open spec fn header_fields(buf: Seq<u8>, i: int, m: Map<Seq<u8>, Seq<u8>>) -> (
    Map<Seq<u8>, Seq<u8>>,
    int,
)
    decreases buf.len() - i,
{
    if !(0 <= i < buf.len()) {
        (m, buf.len() as int)
    } else {
        let e = line_end(buf, i);
        if i <= e <= buf.len() {
            if e == i {
                (m, e + 1)
            } else {
                let j = if e < buf.len() {
                    e + 1
                } else {
                    e
                };
                header_fields(buf, j, apply_line(m, buf.subrange(i, e)))
            }
        } else {
            (m, buf.len() as int)
        }
    }
}

/// The mapping and payload offset that the whole header denotes.
pub open spec fn header_result(buf: Seq<u8>) -> (Map<Seq<u8>, Seq<u8>>, int) {
    header_fields(buf, body_start(buf), Map::empty())
}

/// Reads the magic line and the header lines.  Succeeds exactly when the
/// first line is a recognized magic token, and then hands back the mapping
/// and the byte offset where the payload starts.
pub fn parse_header(buf: &[u8]) -> (r: Result<(Metadata, usize), NrrdError>)
    ensures
        match r {
            Ok(p) => is_magic(first_line(buf@)) && p.0@ == header_result(buf@).0 && p.1 as int
                == header_result(buf@).1 && p.1 <= buf@.len(),
            Err(e) => !is_magic(first_line(buf@)) && (e matches NrrdError::BadMagic(l) && l@
                == first_line(buf@)),
        },
{
    let n = buf.len();
    let e0 = find_byte(buf, 0, n, 10);
    proof {
        lemma_find_from_is(buf@, 0, 10, e0 as int);
        assert(first_line(buf@) == buf@.subrange(0, e0 as int));
    }
    let magic_ok = e0 == 8 && buf[0] == 78 && buf[1] == 82 && buf[2] == 82 && buf[3] == 68
        && buf[4] == 48 && buf[5] == 48 && buf[6] == 48 && (buf[7] == 51 || buf[7] == 52
        || buf[7] == 53);
    proof {
        let fl = first_line(buf@);
        if magic_ok {
            assert(fl.subrange(0, 7) =~= magic_prefix());
            assert(is_magic(fl));
        } else {
            if fl.len() == 8 && fl.subrange(0, 7) == magic_prefix() {
                assert(fl[0] == 78 && fl[1] == 82 && fl[2] == 82 && fl[3] == 68 && fl[4] == 48
                    && fl[5] == 48 && fl[6] == 48) by {
                    assert(forall|j: int|
                        0 <= j < 7 ==> fl[j] == #[trigger] fl.subrange(0, 7)[j]);
                }
            }
            assert(!is_magic(fl));
        }
    }
    if !magic_ok {
        return Err(NrrdError::BadMagic(copy_range(buf, 0, e0)));
    }
    let mut off: usize = if e0 < n {
        e0 + 1
    } else {
        n
    };
    proof {
        assert(off as int == body_start(buf@));
    }
    let mut md = Metadata::new();
    loop
        invariant_except_break
            off <= n == buf@.len(),
            header_result(buf@) == header_fields(buf@, off as int, md@),
        ensures
            header_result(buf@) == (md@, off as int),
            off <= n == buf@.len(),
        decreases n - off,
    {
        if off >= n {
            proof {
                assert(header_fields(buf@, off as int, md@) == (md@, n as int));
            }
            break;
        }
        let e = find_byte(buf, off, n, 10);
        proof {
            lemma_find_from_is(buf@, off as int, 10, e as int);
        }
        if e == off {
            // the blank line that ends the header; the payload starts after it
            proof {
                assert(header_fields(buf@, off as int, md@) == (md@, off + 1));
            }
            off = off + 1;
            break;
        }
        let ghost m0 = md@;
        let ghost line = buf@.subrange(off as int, e as int);
        let c = find_byte(buf, off, e, 58);
        proof {
            lemma_find_from_is(line, 0, 58, c - off);
        }
        if c < e {
            let k = trim_copy(buf, off, c);
            proof {
                assert(line.subrange(0, c - off) =~= buf@.subrange(off as int, c as int));
            }
            let comment = k.len() > 0 && k[0] == 35;
            if !comment {
                let v0 = trim_copy(buf, c + 1, e);
                proof {
                    assert(line.subrange(c - off + 1, line.len() as int) =~= buf@.subrange(
                        c + 1,
                        e as int,
                    ));
                }
                let marked = v0.len() > 0 && v0[0] == 61;
                let v = if marked {
                    let t = trim_copy(v0.as_slice(), 1, v0.len());
                    proof {
                        assert(v0@.subrange(1, v0@.len() as int) =~= v0@.drop_first());
                    }
                    t
                } else {
                    v0
                };
                let ghost kk = k@;
                let ghost vv = v@;
                md.insert(k, v);
                proof {
                    assert(apply_line(m0, line) == m0.insert(kk, vv));
                    assert(md@ == apply_line(m0, line));
                }
            } else {
                proof {
                    assert(apply_line(m0, line) == m0);
                }
            }
        } else {
            proof {
                assert(find_from(line, 0, 58) == line.len());
                assert(apply_line(m0, line) == m0);
            }
        }
        proof {
            let j = if e < n {
                e + 1
            } else {
                e as int
            };
            assert(header_fields(buf@, off as int, m0) == header_fields(
                buf@,
                j,
                apply_line(m0, line),
            ));
        }
        off = if e < n {
            e + 1
        } else {
            n
        };
    }
    Ok((md, off))
}

} // verus!

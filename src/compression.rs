//! The ROM's native compression scheme.
//!
//! A stream is a list of commands ended by the byte `0xFF`. A command header
//! is one byte `ccclllll` (command `c`, length `l + 1`) or, when its three top
//! bits are set, two bytes `111cccll llllllll` (length up to 1024). The eight
//! commands are: a literal run, a byte fill, an alternating two-byte fill, an
//! incrementing byte fill, a copy from an absolute output position, the same
//! copy complemented, a copy from a distance back in the output, and the same
//! copy complemented.
use vstd::prelude::*;

verus! {

/// The stream ends before its terminator, or a command reads past its input
/// or copies from output that does not exist yet.
#[derive(Debug, Clone, Copy, PartialEq, Eq, Structural)]
pub enum DecompressionError {
    MalformedStream,
}

/// Longest run that one command can describe.
pub const MAX_COMMAND_LENGTH: usize = 1024;

/// The byte that ends a stream.
pub const END_OF_STREAM: u8 = 0xFF;

/// Command, length and header size of the command that starts `s`.
pub open spec fn header(s: Seq<u8>) -> Option<(int, int, int)> {
    if s.len() == 0 {
        None
    } else if s[0] >= 0xE0 {
        if s.len() < 2 {
            None
        } else {
            Some(((s[0] - 0xE0) / 4, (s[0] % 4) * 256 + s[1] as int + 1, 2))
        }
    } else {
        Some((s[0] as int / 32, s[0] as int % 32 + 1, 1))
    }
}

/// `out` followed by `n` bytes, each copied from `src` onwards in the output
/// as it grows; complemented when `complement` holds.
pub open spec fn copy_from(out: Seq<u8>, src: int, n: int, complement: bool) -> Seq<u8>
    decreases n,
{
    if n <= 0 {
        out
    } else {
        let v = if complement {
            (255 - out[src]) as u8
        } else {
            out[src]
        };
        copy_from(out.push(v), src + 1, n - 1, complement)
    }
}

/// Runs command `cmd` of length `len` on the data bytes `d` that follow its
/// header: the number of data bytes it uses and the output after it.
pub open spec fn command(cmd: int, len: int, d: Seq<u8>, out: Seq<u8>) -> Option<(int, Seq<u8>)> {
    if cmd == 0 {
        if d.len() >= len {
            Some((len, out + d.subrange(0, len)))
        } else {
            None
        }
    } else if cmd == 1 {
        if d.len() >= 1 {
            Some((1, out + Seq::new(len as nat, |k: int| d[0])))
        } else {
            None
        }
    } else if cmd == 2 {
        if d.len() >= 2 {
            Some(
                (
                    2,
                    out + Seq::new(
                        len as nat,
                        |k: int|
                            if k % 2 == 0 {
                                d[0]
                            } else {
                                d[1]
                            },
                    ),
                ),
            )
        } else {
            None
        }
    } else if cmd == 3 {
        if d.len() >= 1 {
            Some((1, out + Seq::new(len as nat, |k: int| ((d[0] + k) % 256) as u8)))
        } else {
            None
        }
    } else if cmd == 4 || cmd == 5 {
        if d.len() >= 2 && d[0] + 256 * d[1] < out.len() {
            Some((2, copy_from(out, d[0] + 256 * d[1], len, cmd == 5)))
        } else {
            None
        }
    } else {
        if d.len() >= 1 && 1 <= d[0] <= out.len() {
            Some((1, copy_from(out, out.len() - d[0], len, cmd == 7)))
        } else {
            None
        }
    }
}

/// What the stream `s` expands to when appended to `out`; `None` when it is
/// malformed.
pub open spec fn decomp(s: Seq<u8>, out: Seq<u8>) -> Option<Seq<u8>>
    decreases s.len(),
{
    if s.len() == 0 {
        None
    } else if s[0] == END_OF_STREAM {
        Some(out)
    } else {
        match header(s) {
            None => None,
            Some((cmd, len, h)) => match command(cmd, len, s.subrange(h, s.len() as int), out) {
                None => None,
                Some((n, o)) => if 0 <= n <= s.len() - h {
                    decomp(s.subrange(h + n, s.len() as int), o)
                } else {
                    None
                },
            },
        }
    }
}

/// What the stream `s` expands to; `None` when it is malformed.
pub open spec fn decompress_spec(s: Seq<u8>) -> Option<Seq<u8>> {
    decomp(s, Seq::empty())
}

/// How many bytes of `s` the stream takes, its end byte included, when
/// expanded onto `out`; `None` when it is malformed.
pub open spec fn stream_len(s: Seq<u8>, out: Seq<u8>) -> Option<int>
    decreases s.len(),
{
    if s.len() == 0 {
        None
    } else if s[0] == END_OF_STREAM {
        Some(1)
    } else {
        match header(s) {
            None => None,
            Some((cmd, len, h)) => match command(cmd, len, s.subrange(h, s.len() as int), out) {
                None => None,
                Some((n, o)) => if 0 <= n <= s.len() - h {
                    match stream_len(s.subrange(h + n, s.len() as int), o) {
                        Some(m) => Some(h + n + m),
                        None => None,
                    }
                } else {
                    None
                },
            },
        }
    }
}

/// A well-formed stream has a length, within its bytes.
pub proof fn lemma_stream_len(s: Seq<u8>, out: Seq<u8>)
    requires
        decomp(s, out) is Some,
    ensures
        stream_len(s, out) is Some,
        1 <= stream_len(s, out).unwrap() <= s.len(),
    decreases s.len(),
{
    if s[0] != END_OF_STREAM {
        let (cmd, len, h) = header(s).unwrap();
        let (n, o) = command(cmd, len, s.subrange(h, s.len() as int), out).unwrap();
        lemma_stream_len(s.subrange(h + n, s.len() as int), o);
    }
}

/// A stream's length is at least its end byte and at most its bytes.
pub proof fn lemma_stream_len_bounds(s: Seq<u8>, out: Seq<u8>)
    requires
        stream_len(s, out) is Some,
    ensures
        1 <= stream_len(s, out).unwrap() <= s.len(),
    decreases s.len(),
{
    if s[0] != END_OF_STREAM {
        let (cmd, len, h) = header(s).unwrap();
        let (n, o) = command(cmd, len, s.subrange(h, s.len() as int), out).unwrap();
        lemma_stream_len_bounds(s.subrange(h + n, s.len() as int), o);
    }
}

/// A stream expands the same way in any bytes that agree with it over its
/// length.
pub proof fn lemma_stream_frame(s: Seq<u8>, t: Seq<u8>, out: Seq<u8>)
    requires
        stream_len(s, out) is Some,
        stream_len(s, out).unwrap() <= t.len(),
        t.subrange(0, stream_len(s, out).unwrap()) == s.subrange(0, stream_len(s, out).unwrap()),
    ensures
        decomp(t, out) == decomp(s, out),
    decreases s.len(),
{
    let m = stream_len(s, out).unwrap();
    lemma_stream_len_bounds(s, out);
    assert(t.subrange(0, m)[0] == s.subrange(0, m)[0]);
    if s[0] != END_OF_STREAM {
        let (cmd, len, h) = header(s).unwrap();
        let ds = s.subrange(h, s.len() as int);
        let dt = t.subrange(h, t.len() as int);
        let (n, o) = command(cmd, len, ds, out).unwrap();
        let m2 = stream_len(s.subrange(h + n, s.len() as int), o).unwrap();
        lemma_stream_len_bounds(s.subrange(h + n, s.len() as int), o);
        assert(m == h + n + m2);
        if s[0] >= 0xE0 {
            assert(t.subrange(0, m)[1] == s.subrange(0, m)[1]);
        }
        assert(header(t) == header(s));
        assert forall|k: int| 0 <= k < n implies dt[k] == ds[k] by {
            assert(t.subrange(0, m)[h + k] == s.subrange(0, m)[h + k]);
        }
        if cmd == 0 {
            assert(dt.subrange(0, len) =~= ds.subrange(0, len));
        }
        assert(command(cmd, len, dt, out) == command(cmd, len, ds, out));
        let s2 = s.subrange(h + n, s.len() as int);
        let t2 = t.subrange(h + n, t.len() as int);
        assert forall|k: int| 0 <= k < m2 implies t2.subrange(0, m2)[k] == s2.subrange(0, m2)[k] by {
            assert(t.subrange(0, m)[h + n + k] == s.subrange(0, m)[h + n + k]);
        }
        assert(t2.subrange(0, m2) =~= s2.subrange(0, m2));
        lemma_stream_frame(s2, t2, o);
    }
}

fn copy_run(out: &mut Vec<u8>, src: usize, n: usize, complement: bool)
    requires
        src < old(out)@.len(),
    ensures
        final(out)@ == copy_from(old(out)@, src as int, n as int, complement),
{
    let mut k: usize = 0;
    let mut from = src;
    while k < n
        invariant
            k <= n,
            from < out.len(),
            from == src + k,
            copy_from(out@, from as int, (n - k) as int, complement) == copy_from(
                old(out)@,
                src as int,
                n as int,
                complement,
            ),
        decreases n - k,
    {
        let v = if complement {
            255 - out[from]
        } else {
            out[from]
        };
        out.push(v);
        k += 1;
        from += 1;
    }
}

/// Runs the command that starts at `pos`; the position after it.
fn run_command(s: &[u8], pos: usize, out: &mut Vec<u8>) -> (r: Option<usize>)
    requires
        pos < s@.len(),
    ensures
        ({
            let t = s@.subrange(pos as int, s@.len() as int);
            match header(t) {
                None => r.is_none(),
                Some((cmd, len, h)) => match command(
                    cmd,
                    len,
                    t.subrange(h, t.len() as int),
                    old(out)@,
                ) {
                    None => r.is_none(),
                    Some((n, o)) => r == Some((pos + h + n) as usize) && final(out)@ == o && h + n
                        <= t.len(),
                },
            }
        }),
{
    let ghost t = s@.subrange(pos as int, s@.len() as int);
    let b = s[pos];
    let cmd: u8;
    let len: usize;
    let d: usize;
    if b >= 0xE0 {
        if s.len() - pos < 2 {
            return None;
        }
        cmd = (b - 0xE0) / 4;
        len = (b % 4) as usize * 256 + s[pos + 1] as usize + 1;
        d = pos + 2;
    } else {
        cmd = b / 32;
        len = (b % 32) as usize + 1;
        d = pos + 1;
    }
    let ghost h = d - pos;
    assert(header(t) == Some((cmd as int, len as int, h)));
    let ghost dd = t.subrange(h, t.len() as int);
    assert(dd =~= s@.subrange(d as int, s@.len() as int));
    let avail = s.len() - d;
    if cmd == 0 {
        if avail < len {
            return None;
        }
        let ghost o0 = out@;
        let mut k: usize = 0;
        while k < len
            invariant
                k <= len <= avail,
                avail == s@.len() - d,
                d + len <= s.len(),
                out@ == o0 + s@.subrange(d as int, d + k),
            decreases len - k,
        {
            out.push(s[d + k]);
            k += 1;
            assert(out@ =~= o0 + s@.subrange(d as int, d + k));
        }
        assert(dd.subrange(0, len as int) =~= s@.subrange(d as int, d + len));
        Some(d + len)
    } else if cmd == 1 || cmd == 3 {
        if avail < 1 {
            return None;
        }
        let v = s[d];
        let ghost o0 = out@;
        let mut k: usize = 0;
        while k < len
            invariant
                k <= len <= MAX_COMMAND_LENGTH,
                cmd == 1 ==> out@ =~= o0 + Seq::new(k as nat, |j: int| v),
                cmd == 3 ==> out@ =~= o0 + Seq::new(k as nat, |j: int| ((v + j) % 256) as u8),
            decreases len - k,
        {
            if cmd == 1 {
                out.push(v);
            } else {
                out.push(((v as usize + k) % 256) as u8);
            }
            k += 1;
        }
        Some(d + 1)
    } else if cmd == 2 {
        if avail < 2 {
            return None;
        }
        let v0 = s[d];
        let v1 = s[d + 1];
        let ghost o0 = out@;
        let mut k: usize = 0;
        while k < len
            invariant
                k <= len,
                out@ =~= o0 + Seq::new(
                    k as nat,
                    |j: int|
                        if j % 2 == 0 {
                            v0
                        } else {
                            v1
                        },
                ),
            decreases len - k,
        {
            if k % 2 == 0 {
                out.push(v0);
            } else {
                out.push(v1);
            }
            k += 1;
        }
        Some(d + 2)
    } else if cmd == 4 || cmd == 5 {
        if avail < 2 {
            return None;
        }
        let src = s[d] as usize + 256 * s[d + 1] as usize;
        if src >= out.len() {
            return None;
        }
        copy_run(out, src, len, cmd == 5);
        Some(d + 2)
    } else {
        if avail < 1 {
            return None;
        }
        let dist = s[d] as usize;
        if dist < 1 || dist > out.len() {
            return None;
        }
        let src = out.len() - dist;
        copy_run(out, src, len, cmd == 7);
        Some(d + 1)
    }
}

/// Expands the stream that starts at `pos` in `s`; also gives the offset just
/// past its terminator.
pub fn decompress_at(s: &[u8], pos: usize) -> (r: Result<(Vec<u8>, usize), DecompressionError>)
    ensures
        r.is_ok() <==> pos <= s@.len() && decompress_spec(
            s@.subrange(pos as int, s@.len() as int),
        ).is_some(),
        r.is_ok() ==> r.unwrap().0@ == decompress_spec(
            s@.subrange(pos as int, s@.len() as int),
        ).unwrap() && pos < r.unwrap().1 <= s@.len(),
{
    if pos > s.len() {
        return Err(DecompressionError::MalformedStream);
    }
    let ghost target = decompress_spec(s@.subrange(pos as int, s@.len() as int));
    let mut out: Vec<u8> = Vec::new();
    let mut p = pos;
    while p < s.len() && s[p] != END_OF_STREAM
        invariant
            pos <= p <= s@.len(),
            target == decompress_spec(s@.subrange(pos as int, s@.len() as int)),
            decomp(s@.subrange(p as int, s@.len() as int), out@) == target,
        decreases s@.len() - p,
    {
        let ghost t = s@.subrange(p as int, s@.len() as int);
        let ghost o = out@;
        match run_command(s, p, &mut out) {
            None => {
                assert(t[0] == s@[p as int]);
                return Err(DecompressionError::MalformedStream);
            },
            Some(np) => {
                proof {
                    let (cmd, len, h) = header(t).unwrap();
                    let (n, o2) = command(cmd, len, t.subrange(h, t.len() as int), o).unwrap();
                    assert(t.subrange(h + n, t.len() as int) =~= s@.subrange(
                        np as int,
                        s@.len() as int,
                    ));
                }
                p = np;
            },
        }
    }
    if p >= s.len() {
        assert(s@.subrange(p as int, s@.len() as int).len() == 0);
        return Err(DecompressionError::MalformedStream);
    }
    Ok((out, p + 1))
}

/// Expands a whole stream.
pub fn decompress(s: &[u8]) -> (r: Result<Vec<u8>, DecompressionError>)
    ensures
        r.is_ok() <==> decompress_spec(s@).is_some(),
        r.is_ok() ==> r.unwrap()@ == decompress_spec(s@).unwrap(),
{
    assert(s@.subrange(0, s@.len() as int) =~= s@);
    match decompress_at(s, 0) {
        Ok((out, _)) => Ok(out),
        Err(e) => Err(e),
    }
}


/// A literal or fill command `ch`, complete with its data, expands the same
/// way whatever follows it.
proof fn lemma_command_prefix(ch: Seq<u8>, t: Seq<u8>, out: Seq<u8>, o2: Seq<u8>)
    requires
        ch.len() > 0,
        ch[0] != END_OF_STREAM,
        header(ch) is Some,
        header(ch).unwrap().0 == 0 || header(ch).unwrap().0 == 1,
        header(ch).unwrap().2 <= ch.len(),
        command(
            header(ch).unwrap().0,
            header(ch).unwrap().1,
            ch.subrange(header(ch).unwrap().2, ch.len() as int),
            out,
        ) == Some((ch.len() - header(ch).unwrap().2, o2)),
    ensures
        decomp(ch + t, out) == decomp(t, o2),
{
    let s = ch + t;
    let (cmd, len, h) = header(ch).unwrap();
    assert(s[0] == ch[0]);
    if ch[0] >= 0xE0 {
        assert(s[1] == ch[1]);
    }
    assert(header(s) == header(ch));
    let d = s.subrange(h, s.len() as int);
    let dc = ch.subrange(h, ch.len() as int);
    if cmd == 0 {
        assert(d.subrange(0, len) =~= dc.subrange(0, len));
    } else {
        assert(d[0] == dc[0]);
    }
    assert(command(cmd, len, d, out) == Some((ch.len() - h, o2)));
    assert(s.subrange(ch.len() as int, s.len() as int) =~= t);
}

/// The header bytes of command `cmd` with length `len`.
pub open spec fn header_bytes(cmd: int, len: int) -> Seq<u8> {
    if len <= 32 {
        seq![(cmd * 32 + len - 1) as u8]
    } else {
        seq![(0xE0 + cmd * 4 + (len - 1) / 256) as u8, ((len - 1) % 256) as u8]
    }
}

proof fn lemma_header_bytes(cmd: int, len: int, rest: Seq<u8>)
    requires
        0 <= cmd <= 1,
        1 <= len <= MAX_COMMAND_LENGTH,
    ensures
        header(header_bytes(cmd, len) + rest) == Some((cmd, len, header_bytes(cmd, len).len() as int)),
        (header_bytes(cmd, len) + rest)[0] != END_OF_STREAM,
{
    let s = header_bytes(cmd, len) + rest;
    assert(s[0] == header_bytes(cmd, len)[0]);
    if len > 32 {
        assert(s[1] == header_bytes(cmd, len)[1]);
    }
}

/// Appends the header of command `cmd` with length `len`.
fn push_header(c: &mut Vec<u8>, cmd: u8, len: usize)
    requires
        cmd <= 1,
        1 <= len <= MAX_COMMAND_LENGTH,
    ensures
        final(c)@ == old(c)@ + header_bytes(cmd as int, len as int),
{
    if len <= 32 {
        c.push(cmd * 32 + (len - 1) as u8);
    } else {
        c.push(0xE0 + cmd * 4 + ((len - 1) / 256) as u8);
        c.push(((len - 1) % 256) as u8);
    }
    assert(c@ =~= old(c)@ + header_bytes(cmd as int, len as int));
}

/// The length of the run of bytes equal to `x[i]` from `i`, counted on from
/// `r` and at most one command long.
pub open spec fn run_from(x: Seq<u8>, i: int, r: int) -> int
    decreases MAX_COMMAND_LENGTH - r,
{
    if r < MAX_COMMAND_LENGTH && i + r < x.len() && x[i + r] == x[i] {
        run_from(x, i, r + 1)
    } else {
        r
    }
}

/// Where a literal run that starts at `i` ends, searching on from `j`: at the
/// end of `x`, after one command's length, or before three equal bytes.
pub open spec fn literal_end(x: Seq<u8>, i: int, j: int) -> int
    decreases x.len() - j,
{
    if j < x.len() && j - i < MAX_COMMAND_LENGTH && !(x.len() - j > 2 && x[j] == x[j + 1] && x[j]
        == x[j + 2]) {
        literal_end(x, i, j + 1)
    } else {
        j
    }
}

/// The stream that `compress` gives for `x[i..]`: a byte fill for a run of
/// three or more equal bytes, else a literal run, then the rest; the end
/// byte last.
pub open spec fn compress_from(x: Seq<u8>, i: int) -> Seq<u8>
    decreases x.len() - i,
{
    if i < 0 || i >= x.len() {
        seq![END_OF_STREAM]
    } else {
        let r = run_from(x, i, 1);
        if r >= 3 && i + r <= x.len() {
            header_bytes(1, r) + seq![x[i]] + compress_from(x, i + r)
        } else {
            let j = literal_end(x, i, i + 1);
            if i < j <= x.len() {
                header_bytes(0, j - i) + x.subrange(i, j) + compress_from(x, j)
            } else {
                seq![END_OF_STREAM]
            }
        }
    }
}

/// The stream that `compress` gives for `x`.
pub open spec fn compress_spec(x: Seq<u8>) -> Seq<u8> {
    compress_from(x, 0)
}

/// The length of the run of equal bytes that starts at `i`, at most one
/// command long.
fn run_length(x: &[u8], i: usize) -> (r: usize)
    requires
        i < x@.len(),
    ensures
        1 <= r <= MAX_COMMAND_LENGTH,
        i + r <= x@.len(),
        forall|k: int| i <= k < i + r ==> x@[k] == x@[i as int],
        r == run_from(x@, i as int, 1),
{
    let mut r: usize = 1;
    while r < MAX_COMMAND_LENGTH && r < x.len() - i && x[i + r] == x[i]
        invariant
            1 <= r <= MAX_COMMAND_LENGTH,
            i + r <= x@.len(),
            forall|k: int| i <= k < i + r ==> x@[k] == x@[i as int],
            run_from(x@, i as int, 1) == run_from(x@, i as int, r as int),
        decreases MAX_COMMAND_LENGTH - r,
    {
        r += 1;
    }
    r
}

/// `c` is a run of complete commands that expands to `x`, whatever follows.
pub open spec fn encodes(c: Seq<u8>, x: Seq<u8>) -> bool {
    forall|t: Seq<u8>| #[trigger] decomp(c + t, Seq::empty()) == decomp(t, x)
}

/// Appends a byte fill for `x[i..i + r]`, whose bytes are all equal.
fn emit_fill(c: &mut Vec<u8>, x: &[u8], i: usize, r: usize)
    requires
        1 <= r <= MAX_COMMAND_LENGTH,
        i + r <= x@.len(),
        forall|k: int| i <= k < i + r ==> x@[k] == x@[i as int],
        encodes(old(c)@, x@.subrange(0, i as int)),
    ensures
        encodes(final(c)@, x@.subrange(0, i + r)),
        final(c)@ == old(c)@ + (header_bytes(1, r as int) + seq![x@[i as int]]),
{
    let ghost c0 = c@;
    push_header(c, 1, r);
    let ghost hb = header_bytes(1, r as int);
    let ghost h = hb.len() as int;
    c.push(x[i]);
    proof {
        let ch = hb + seq![x@[i as int]];
        assert(c@ =~= c0 + ch);
        lemma_header_bytes(1, r as int, seq![x@[i as int]]);
        assert(ch.subrange(h, ch.len() as int) =~= seq![x@[i as int]]);
        let o = x@.subrange(0, i as int);
        let o2 = x@.subrange(0, i + r);
        assert(o + Seq::new(r as nat, |k: int| x@[i as int]) =~= o2);
        assert forall|t: Seq<u8>| #[trigger] decomp(c@ + t, Seq::empty()) == decomp(t, o2) by {
            assert(c@ + t =~= c0 + (ch + t));
            assert(decomp(c0 + (ch + t), Seq::empty()) == decomp(ch + t, o));
            lemma_command_prefix(ch, t, o, o2);
        }
    }
}

/// Appends a literal run of `x[i..j]`.
fn emit_literal(c: &mut Vec<u8>, x: &[u8], i: usize, j: usize)
    requires
        i < j <= x@.len(),
        j - i <= MAX_COMMAND_LENGTH,
        encodes(old(c)@, x@.subrange(0, i as int)),
    ensures
        encodes(final(c)@, x@.subrange(0, j as int)),
        final(c)@ == old(c)@ + (header_bytes(0, (j - i) as int) + x@.subrange(i as int, j as int)),
{
    let ghost c0 = c@;
    push_header(c, 0, j - i);
    let ghost hb = header_bytes(0, (j - i) as int);
    let ghost h = hb.len() as int;
    let ghost c1 = c@;
    let mut k: usize = i;
    while k < j
        invariant
            i <= k <= j <= x@.len(),
            c@ == c1 + x@.subrange(i as int, k as int),
        decreases j - k,
    {
        c.push(x[k]);
        k += 1;
        assert(c@ =~= c1 + x@.subrange(i as int, k as int));
    }
    proof {
        let ch = hb + x@.subrange(i as int, j as int);
        assert(c@ =~= c0 + ch);
        lemma_header_bytes(0, (j - i) as int, x@.subrange(i as int, j as int));
        let d = ch.subrange(h, ch.len() as int);
        assert(d =~= x@.subrange(i as int, j as int));
        assert(d.subrange(0, (j - i) as int) =~= d);
        let o = x@.subrange(0, i as int);
        let o2 = x@.subrange(0, j as int);
        assert(o + x@.subrange(i as int, j as int) =~= o2);
        assert forall|t: Seq<u8>| #[trigger] decomp(c@ + t, Seq::empty()) == decomp(t, o2) by {
            assert(c@ + t =~= c0 + (ch + t));
            assert(decomp(c0 + (ch + t), Seq::empty()) == decomp(ch + t, o));
            lemma_command_prefix(ch, t, o, o2);
        }
    }
}

/// Compresses `x` with byte fills for runs of three or more equal bytes and
/// literal runs elsewhere. Expanding the result gives `x` back, whatever
/// bytes follow it.
pub fn compress(x: &[u8]) -> (r: Vec<u8>)
    ensures
        decompress_spec(r@) == Some(x@),
        forall|t: Seq<u8>| #[trigger] decompress_spec(r@ + t) == Some(x@),
        r@ == compress_spec(x@),
{
    let n = x.len();
    let mut c: Vec<u8> = Vec::new();
    let mut i: usize = 0;
    assert forall|t: Seq<u8>| #[trigger] decomp(c@ + t, Seq::empty()) == decomp(t, x@.subrange(0, 0)) by {
        assert(c@ + t =~= t);
        assert(x@.subrange(0, 0) =~= Seq::<u8>::empty());
    }
    while i < n
        invariant
            n == x@.len(),
            i <= n,
            encodes(c@, x@.subrange(0, i as int)),
            c@ + compress_from(x@, i as int) == compress_spec(x@),
        decreases n - i,
    {
        let r = run_length(x, i);
        let ghost c0 = c@;
        if r >= 3 {
            emit_fill(&mut c, x, i, r);
            proof {
                assert(c0 + compress_from(x@, i as int) == c0 + ((header_bytes(1, r as int) + seq![x@[i as int]])
                    + compress_from(x@, i + r)));
                assert(c@ + compress_from(x@, i + r) =~= c0 + ((header_bytes(1, r as int) + seq![x@[i as int]])
                    + compress_from(x@, i + r)));
            }
            i = i + r;
        } else {
            let mut j: usize = i + 1;
            while j < n && j - i < MAX_COMMAND_LENGTH && !(n - j > 2 && x[j] == x[j + 1] && x[j]
                == x[j + 2])
                invariant
                    n == x@.len(),
                    i < j <= n,
                    j - i <= MAX_COMMAND_LENGTH,
                    literal_end(x@, i as int, i + 1) == literal_end(x@, i as int, j as int),
                decreases n - j,
            {
                j += 1;
            }
            emit_literal(&mut c, x, i, j);
            proof {
                let hx = header_bytes(0, (j - i) as int) + x@.subrange(i as int, j as int);
                assert(c0 + compress_from(x@, i as int) == c0 + (hx + compress_from(x@, j as int)));
                assert(c@ + compress_from(x@, j as int) =~= c0 + (hx + compress_from(x@, j as int)));
            }
            i = j;
        }
    }
    let ghost c2 = c@;
    c.push(END_OF_STREAM);
    proof {
        assert(c@ =~= c2 + compress_from(x@, n as int));
        assert(c@ =~= c2 + seq![END_OF_STREAM]);
        assert(decomp(c2 + seq![END_OF_STREAM], Seq::empty()) == decomp(
            seq![END_OF_STREAM],
            x@.subrange(0, n as int),
        ));
        assert(x@.subrange(0, n as int) =~= x@);
        assert forall|t: Seq<u8>| #[trigger] decompress_spec(c@ + t) == Some(x@) by {
            assert(c@ + t =~= c2 + (seq![END_OF_STREAM] + t));
            assert(decomp(c2 + (seq![END_OF_STREAM] + t), Seq::empty()) == decomp(
                seq![END_OF_STREAM] + t,
                x@.subrange(0, n as int),
            ));
            assert((seq![END_OF_STREAM] + t)[0] == END_OF_STREAM);
        }
    }
    c
}

} // verus!

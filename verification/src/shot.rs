//! Screenshot capture: replays the escape-sequence stream a redraw emits
//! into a plain character grid, so the surrounding program can save the
//! frame as text. Only cursor-movement sequences are interpreted; colors
//! are dropped, and printable text lands in the grid at the cursor.

use vstd::prelude::*;

verus! {

/// A captured terminal frame and the cursor state of the replay.
pub struct ScreenShot {
    /// Grid width in columns.
    pub w: u16,
    /// Grid height in rows.
    pub h: u16,
    /// Cursor column.
    pub x: u16,
    /// Cursor row.
    pub y: u16,
    /// The grid, row-major, `w * h` characters.
    pub screen: Vec<char>,
    /// Whether an escape sequence is being collected.
    pub in_esc: bool,
    /// The collected escape-sequence arguments.
    pub esc_seq: Vec<char>,
}

/// The characters a valid UTF-8 byte sequence encodes; an invalid sequence
/// counts as empty, which is how the capture treats it.
pub uninterp spec fn utf8_or_empty(bytes: Seq<u8>) -> Seq<char>;

/// Relies on std's `str::from_utf8`: decodes the bytes written between
/// escape sequences; an undecodable chunk is dropped.
#[verifier::external_body]
fn utf8_chars(buf: &[u8]) -> (r: Vec<char>)
    ensures
        r@ == utf8_or_empty(buf@),
{
    match core::str::from_utf8(buf) {
        Ok(ss) => ss.chars().collect(),
        Err(_) => Vec::new(),
    }
}

/// Relies on std's `char::From<u8>`: the character with the byte's code
/// point, used to collect escape-sequence argument text.
#[verifier::external_body]
fn byte_char(b: u8) -> (c: char)
    ensures
        c as u32 == b as u32,
{
    char::from(b)
}

/// Whether a character is a decimal digit.
pub open spec fn is_dec_digit(c: char) -> bool {
    48 <= c as u32 <= 57
}

/// The numeric value of a digit string, most significant digit first.
pub open spec fn dec_chars_val(s: Seq<char>) -> nat
    decreases s.len(),
{
    if s.len() == 0 {
        0
    } else {
        dec_chars_val(s.drop_last()) * 10 + (s.last() as u32 - 48) as nat
    }
}

/// The digits of a cursor-position argument: an optional plus sign is
/// stripped.
pub open spec fn parse_digits_of(s: Seq<char>) -> Seq<char> {
    if s.len() >= 1 && s[0] == '+' {
        s.skip(1)
    } else {
        s
    }
}

/// How a cursor-position argument parses: an optional plus sign, then at
/// least one digit, with a value that fits in sixteen bits.
pub open spec fn spec_parse_u16(s: Seq<char>) -> Option<u16> {
    let ds = parse_digits_of(s);
    if ds.len() == 0 {
        None
    } else if exists|i: int| 0 <= i < ds.len() && !is_dec_digit(#[trigger] ds[i]) {
        None
    } else if dec_chars_val(ds) > 65535 {
        None
    } else {
        Some(dec_chars_val(ds) as u16)
    }
}

fn parse_u16_chars(s: &Vec<char>, from: usize, to: usize) -> (r: Option<u16>)
    requires
        from <= to <= s@.len(),
    ensures
        r == spec_parse_u16(s@.subrange(from as int, to as int)),
{
    let ghost whole = s@.subrange(from as int, to as int);
    let mut start = from;
    if from < to && s[from] == '+' {
        start = from + 1;
        proof {
            assert(whole.skip(1) =~= s@.subrange(start as int, to as int));
        }
    }
    let ghost ds = s@.subrange(start as int, to as int);
    proof {
        assert(ds == parse_digits_of(whole));
    }
    if start == to {
        return None;
    }
    let mut acc: u64 = 0;
    let mut too_big = false;
    let mut i = start;
    while i < to
        invariant
            from <= start <= i <= to <= s@.len(),
            ds == s@.subrange(start as int, to as int),
            ds == parse_digits_of(s@.subrange(from as int, to as int)),
            forall|j: int| start <= j < i ==> is_dec_digit(#[trigger] s@[j]),
            !too_big ==> acc == dec_chars_val(s@.subrange(start as int, i as int)) && acc <= 65535,
            too_big ==> dec_chars_val(s@.subrange(start as int, i as int)) > 65535,
        decreases to - i,
    {
        let c = s[i];
        let cv = c as u32;
        if cv < 48 || cv > 57 {
            proof {
                assert(ds[i - start as int] == s@[i as int]);
                assert(!is_dec_digit(ds[i - start as int]));
            }
            return None;
        }
        let ghost pre = s@.subrange(start as int, i as int);
        proof {
            assert(s@.subrange(start as int, i as int + 1).drop_last() =~= pre);
            assert(s@.subrange(start as int, i as int + 1).last() == s@[i as int]);
        }
        if !too_big {
            let next: u64 = acc * 10 + (cv - 48) as u64;
            if next > 65535 {
                too_big = true;
            } else {
                acc = next;
            }
            proof {
                assert(dec_chars_val(s@.subrange(start as int, i as int + 1)) == dec_chars_val(pre)
                    * 10 + (s@[i as int] as u32 - 48) as nat);
            }
        }
        i = i + 1;
    }
    proof {
        assert(s@.subrange(start as int, to as int) =~= ds);
        assert forall|j: int| 0 <= j < ds.len() implies is_dec_digit(#[trigger] ds[j]) by {
            assert(ds[j] == s@[start + j]);
        }
    }
    if too_big {
        return None;
    }
    Some(acc as u16)
}

/// Where the first separator of an argument list stands.
pub open spec fn first_semi(s: Seq<char>) -> int
    decreases s.len(),
{
    if s.len() == 0 {
        0
    } else if s[0] == ';' {
        0
    } else {
        1 + first_semi(s.skip(1))
    }
}

/// How many separators an argument list holds.
pub open spec fn semi_count(s: Seq<char>) -> nat
    decreases s.len(),
{
    if s.len() == 0 {
        0
    } else {
        semi_count(s.drop_last()) + if s.last() == ';' {
            1nat
        } else {
            0nat
        }
    }
}

/// The new cursor coordinate a parsed argument sets: the one-based value
/// made zero-based, or the old coordinate when the argument does not parse.
pub open spec fn goto_coord(arg: Option<u16>, old_c: u16) -> u16 {
    match arg {
        Some(n) => if n == 0 {
            0
        } else {
            (n - 1) as u16
        },
        None => old_c,
    }
}

/// What printing a character stream does to the grid: each character lands
/// at the cursor if that is still inside the grid, and the cursor advances,
/// wrapping at the right edge; once the cursor leaves the grid the rest of
/// the stream is dropped.
pub open spec fn spec_put(
    grid: Seq<char>,
    w: nat,
    h: nat,
    x: nat,
    y: nat,
    cs: Seq<char>,
) -> (Seq<char>, nat, nat)
    decreases cs.len(),
{
    if cs.len() == 0 {
        (grid, x, y)
    } else {
        let p = y * w + x;
        if p < w * h {
            let g2 = grid.update(p as int, cs[0]);
            if x + 1 >= w {
                spec_put(g2, w, h, 0, y + 1, cs.skip(1))
            } else {
                spec_put(g2, w, h, x + 1, y, cs.skip(1))
            }
        } else {
            spec_put(grid, w, h, x, y, cs.skip(1))
        }
    }
}

/// What one chunk of the emitted stream does to a capture. A chunk opening
/// an escape sequence resets the argument collector (a bare color reset is
/// ignored whole); while a sequence is open, a cursor-position terminator
/// moves the cursor to its two parsed arguments, a color terminator just
/// closes the sequence, and anything else extends the arguments; outside a
/// sequence the chunk's characters are printed.
pub open spec fn shot_consumed(pre: ScreenShot, post: ScreenShot, buf: Seq<u8>) -> bool {
    if buf.len() == 0 {
        post == pre
    } else if buf.len() > 1 && buf[0] == 27 && buf[1] == 91 {
        &&& post.esc_seq@ == Seq::<char>::empty()
        &&& post.in_esc == (pre.in_esc || !(buf.len() == 4 && buf[2] == 48 && buf[3] == 109))
        &&& post == (ScreenShot { esc_seq: post.esc_seq, in_esc: post.in_esc, ..pre })
    } else if pre.in_esc {
        if buf[0] == 72 {
            // cursor position: row;column, one-based
            &&& (if semi_count(pre.esc_seq@) == 1 {
                let cut = first_semi(pre.esc_seq@);
                let row = spec_parse_u16(pre.esc_seq@.take(cut));
                let col = spec_parse_u16(pre.esc_seq@.skip(cut + 1));
                post.y == goto_coord(row, pre.y) && post.x == goto_coord(col, pre.x)
            } else {
                post.y == pre.y && post.x == pre.x
            })
            &&& post.in_esc == false
            &&& post == (ScreenShot { x: post.x, y: post.y, in_esc: false, ..pre })
        } else if buf[0] == 109 {
            post == (ScreenShot { in_esc: false, ..pre })
        } else {
            &&& post.esc_seq@.len() == pre.esc_seq@.len() + buf.len()
            &&& (forall|j: int|
                0 <= j < pre.esc_seq@.len() ==> post.esc_seq@[j] == pre.esc_seq@[j])
            &&& (forall|j: int|
                0 <= j < buf.len() ==> (#[trigger] post.esc_seq@[pre.esc_seq@.len() + j]) as u32
                    == buf[j] as u32)
            &&& post == (ScreenShot { esc_seq: post.esc_seq, ..pre })
        }
    } else {
        let put = spec_put(
            pre.screen@,
            pre.w as nat,
            pre.h as nat,
            pre.x as nat,
            pre.y as nat,
            utf8_or_empty(buf),
        );
        &&& post.screen@ == put.0
        &&& post.x as nat == put.1
        &&& post.y as nat == put.2
        &&& post == (ScreenShot { screen: post.screen, x: post.x, y: post.y, ..pre })
    }
}

impl ScreenShot {
    /// An empty capture of the given size, cursor at the origin.
    pub fn new(w: u16, h: u16) -> (s: ScreenShot)
        ensures
            s.w == w,
            s.h == h,
            s.x == 0,
            s.y == 0,
            !s.in_esc,
            s.esc_seq@.len() == 0,
            s.screen@.len() == w as nat * h as nat,
            forall|j: int| 0 <= j < s.screen@.len() ==> s.screen@[j] == ' ',
    {
        proof {
            assert(w as nat * h as nat <= 0xffff * 0xffff) by (nonlinear_arith)
                requires
                    w <= 0xffff,
                    h <= 0xffff,
            ;
        }
        let size: usize = w as usize * h as usize;
        let mut screen: Vec<char> = Vec::new();
        let mut i: usize = 0;
        while i < size
            invariant
                i <= size,
                screen@.len() == i,
                forall|j: int| 0 <= j < i ==> screen@[j] == ' ',
            decreases size - i,
        {
            screen.push(' ');
            i = i + 1;
        }
        ScreenShot { w, h, x: 0, y: 0, in_esc: false, esc_seq: Vec::new(), screen }
    }

    /// Replays one chunk of the emitted stream into the capture.
    pub fn consume(&mut self, buf: &[u8])
        requires
            old(self).screen@.len() == old(self).w as nat * old(self).h as nat,
        ensures
            shot_consumed(*old(self), *final(self), buf@),
            final(self).screen@.len() == old(self).screen@.len(),
            final(self).w == old(self).w,
            final(self).h == old(self).h,
    {
        let n = buf.len();
        if n == 0 {
            return;
        }
        if n > 1 && buf[0] == 27 && buf[1] == 91 {
            self.esc_seq = Vec::new();
            // a bare color reset has no arguments and opens nothing
            if n != 4 || buf[2] != 48 || buf[3] != 109 {
                self.in_esc = true;
            }
            return;
        }
        if self.in_esc {
            if buf[0] == 72 {
                let parts = self.count_semis();
                if parts.0 == 1 {
                    let cut = parts.1;
                    let el = self.esc_seq.len();
                    proof {
                        assert(cut < el);
                    }
                    let row = parse_u16_chars(&self.esc_seq, 0, cut);
                    let col = parse_u16_chars(&self.esc_seq, cut + 1, el);
                    proof {
                        assert(self.esc_seq@.subrange(0, cut as int) =~= self.esc_seq@.take(
                            cut as int,
                        ));
                        assert(self.esc_seq@.subrange(
                            cut as int + 1,
                            self.esc_seq@.len() as int,
                        ) =~= self.esc_seq@.skip(cut as int + 1));
                    }
                    if let Some(r) = row {
                        self.y = if r == 0 {
                            0
                        } else {
                            r - 1
                        };
                    }
                    if let Some(c) = col {
                        self.x = if c == 0 {
                            0
                        } else {
                            c - 1
                        };
                    }
                }
                self.in_esc = false;
                return;
            }
            if buf[0] == 109 {
                self.in_esc = false;
                return;
            }
            let ghost pre_seq = self.esc_seq@;
            let ghost snap = *self;
            let mut i: usize = 0;
            while i < n
                invariant
                    i <= n,
                    n == buf@.len(),
                    self.esc_seq@.len() == pre_seq.len() + i,
                    forall|j: int| 0 <= j < pre_seq.len() ==> self.esc_seq@[j] == pre_seq[j],
                    forall|j: int|
                        0 <= j < i ==> (#[trigger] self.esc_seq@[pre_seq.len() + j]) as u32
                            == buf@[j] as u32,
                    *self == (ScreenShot { esc_seq: self.esc_seq, ..snap }),
                decreases n - i,
            {
                let c = byte_char(buf[i]);
                self.esc_seq.push(c);
                i = i + 1;
            }
            return;
        }
        let cs = utf8_chars(buf);
        let ghost stream = cs@;
        let ghost snap = *self;
        let w = self.w;
        let h = self.h;
        let mut k: usize = 0;
        proof {
            assert(stream.skip(0) =~= stream);
        }
        while k < cs.len()
            invariant
                k <= cs@.len(),
                cs@ == stream,
                self.w == w,
                self.h == h,
                self.screen@.len() == w as nat * h as nat,
                *self == (ScreenShot {
                    screen: self.screen,
                    x: self.x,
                    y: self.y,
                    ..snap
                }),
                spec_put(snap.screen@, w as nat, h as nat, snap.x as nat, snap.y as nat, stream)
                    == spec_put(
                    self.screen@,
                    w as nat,
                    h as nat,
                    self.x as nat,
                    self.y as nat,
                    stream.skip(k as int),
                ),
            decreases cs@.len() - k,
        {
            proof {
                assert(stream.skip(k as int)[0] == stream[k as int]);
                assert(stream.skip(k as int).skip(1) =~= stream.skip(k as int + 1));
                assert(self.y as nat * w as nat <= 0xffff * 0xffff) by (nonlinear_arith)
                    requires
                        self.y <= 0xffff,
                        w <= 0xffff,
                ;
            }
            let p: usize = self.y as usize * w as usize + self.x as usize;
            if p < self.screen.len() {
                self.screen.set(p, cs[k]);
                proof {
                    assert((self.y as nat) * (w as nat) + self.x as nat == p as nat);
                    assert((self.y as nat) < h as nat) by (nonlinear_arith)
                        requires
                            (self.y as nat * w as nat + self.x as nat) < w as nat * h as nat,
                            0 <= self.x,
                    ;
                }
                if self.x as usize + 1 >= w as usize {
                    self.x = 0;
                    self.y = self.y + 1;
                } else {
                    self.x = self.x + 1;
                }
            } else {
                proof {
                    assert((self.y as nat) * (w as nat) + self.x as nat >= w as nat * h as nat);
                }
            }
            k = k + 1;
        }
        proof {
            assert(stream.skip(cs@.len() as int) =~= Seq::<char>::empty());
        }
    }

    fn count_semis(&self) -> (r: (usize, usize))
        ensures
            r.0 as nat == semi_count(self.esc_seq@),
            semi_count(self.esc_seq@) == 1 ==> r.1 < self.esc_seq@.len() && r.1
                == first_semi(self.esc_seq@),
    {
        let l = self.esc_seq.len();
        let mut cnt: usize = 0;
        let mut cut: usize = 0;
        let mut saw: bool = false;
        let mut i: usize = 0;
        proof {
            assert(self.esc_seq@.subrange(0, 0) =~= Seq::<char>::empty());
        }
        while i < l
            invariant
                i <= l,
                l == self.esc_seq@.len(),
                cnt as nat == semi_count(self.esc_seq@.subrange(0, i as int)),
                cnt <= i,
                saw == (cnt > 0),
                !saw ==> forall|j: int| 0 <= j < i ==> self.esc_seq@[j] != ';',
                saw ==> cut < i && self.esc_seq@[cut as int] == ';' && (forall|j: int|
                    0 <= j < cut ==> self.esc_seq@[j] != ';'),
            decreases l - i,
        {
            let ghost pre = self.esc_seq@.subrange(0, i as int);
            proof {
                assert(self.esc_seq@.subrange(0, i as int + 1).drop_last() =~= pre);
                assert(self.esc_seq@.subrange(0, i as int + 1).last() == self.esc_seq@[i as int]);
            }
            if self.esc_seq[i] == ';' {
                if !saw {
                    cut = i;
                    saw = true;
                }
                cnt = cnt + 1;
            }
            i = i + 1;
        }
        proof {
            assert(self.esc_seq@.subrange(0, l as int) =~= self.esc_seq@);
            if semi_count(self.esc_seq@) == 1 {
                lemma_first_semi_at(self.esc_seq@, cut as int);
            }
        }
        (cnt, cut)
    }
}

/// The first-separator index is the position of the earliest separator.
proof fn lemma_first_semi_at(s: Seq<char>, cut: int)
    requires
        0 <= cut < s.len(),
        s[cut] == ';',
        forall|j: int| 0 <= j < cut ==> s[j] != ';',
    ensures
        first_semi(s) == cut,
    decreases cut,
{
    if cut == 0 {
    } else {
        lemma_first_semi_at(s.skip(1), cut - 1);
    }
}

} // verus!

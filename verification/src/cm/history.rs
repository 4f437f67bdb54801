//! What the model has seen: the bytes so far, the bits of the current byte,
//! and the hashes of the contexts that follow from them.

use vstd::prelude::*;

verus! {

/// Hashed context tables: orders 2, 3, 4, 5, 6 and 8, the word, two sparse
/// shapes and three record shapes.
pub const NHASH: usize = 12;

pub const GOLD: u64 = 0x9E37_79B9_7F4A_7C15;

pub const ORDER_SALT: u64 = 0x1234_5678_9ABC_DEF1;

#[verifier::opaque]
pub open spec fn splitmix_of(x: u64) -> u64 {
    let a = x.wrapping_add(GOLD);
    let b = (a ^ (a >> 30)).wrapping_mul(0xBF58_476D_1CE4_E5B9);
    let c = (b ^ (b >> 27)).wrapping_mul(0x94D0_49BB_1331_11EB);
    c ^ (c >> 31)
}

pub fn splitmix(x: u64) -> (r: u64)
    ensures
        r == splitmix_of(x),
{
    proof {
        reveal(splitmix_of);
    }
    let a: u64 = x.wrapping_add(GOLD);
    let b: u64 = (a ^ (a >> 30)).wrapping_mul(0xBF58_476D_1CE4_E5B9);
    let c: u64 = (b ^ (b >> 27)).wrapping_mul(0x94D0_49BB_1331_11EB);
    c ^ (c >> 31)
}

/// What `c0` holds: a one, then the bits of the current byte seen so far.
pub open spec fn partial_ok(c0: u32, bitpos: u32) -> bool {
    &&& bitpos == 0 ==> c0 == 1
    &&& bitpos == 1 ==> 2 <= c0 < 4
    &&& bitpos == 2 ==> 4 <= c0 < 8
    &&& bitpos == 3 ==> 8 <= c0 < 16
    &&& bitpos == 4 ==> 16 <= c0 < 32
    &&& bitpos == 5 ==> 32 <= c0 < 64
    &&& bitpos == 6 ==> 64 <= c0 < 128
    &&& bitpos == 7 ==> 128 <= c0 < 256
    &&& bitpos < 8
}

pub struct HistoryState {
    pub buf: Seq<u8>,
    /// The last eight bytes, the latest lowest.
    pub window: u64,
    pub word_hash: u64,
    pub hashes: Seq<u64>,
    pub c0: u32,
    pub bitpos: u32,
    /// The record or row length; 0 for none.
    pub stride: nat,
    /// The bytes per pixel of image data; 0 for other data.
    pub bpp: nat,
}

/// The rolling hash of the current word: letters and bytes above ASCII extend
/// it, anything else ends it.
pub open spec fn word_after(word_hash: u64, b: u8) -> u64 {
    let lower = b | 0x20;
    if (0x61 <= lower <= 0x7a) || b >= 0x80 {
        word_hash.wrapping_mul(GOLD) ^ splitmix_of((lower + 1) as u64)
    } else {
        0
    }
}

/// The salt that keeps the contexts of one order from those of another.
pub open spec fn order_salt(order: u64) -> u64 {
    order.wrapping_mul(ORDER_SALT)
}

/// Whether two whole records lie behind the position.
pub open spec fn has_records(n: int, stride: nat) -> bool {
    stride > 0 && n >= 2 * stride
}

/// The byte `d` back from the end.
pub open spec fn back(buf: Seq<u8>, d: int) -> u64 {
    buf[buf.len() - d] as u64
}

/// The gradient of a pixel's neighbours, as ten bits.
pub open spec fn gradient(above: u64, left: u64, above_left: u64) -> u64 {
    let g = above + left - above_left;
    let c: i64 = (if g < -255 {
        -255int
    } else if g > 510 {
        510int
    } else {
        g
    }) as i64;
    (c as u64) & 0x3ff
}

/// The three record contexts: the neighbours in two dimensions for image data,
/// else the bytes one and two records back and the column.
pub open spec fn record_hashes(buf: Seq<u8>, stride: nat, bpp: nat, b: u8) -> (u64, u64, u64) {
    let n = buf.len() as int;
    let above = back(buf, stride as int);
    if bpp > 0 {
        let left = if n >= bpp {
            back(buf, bpp as int)
        } else {
            0
        };
        let above_left = if n >= stride + bpp {
            back(buf, (stride + bpp) as int)
        } else {
            0
        };
        let above_right = if stride > bpp {
            back(buf, stride - bpp)
        } else {
            above
        };
        (
            splitmix_of(above | (left << 8) | 0xAAAA_0000_0000_0000),
            splitmix_of(above | (left << 8) | (above_left << 16) | 0xBBBB_0000_0000_0000),
            splitmix_of(
                gradient(above, left, above_left) | (above_right << 10) | 0xCCCC_0000_0000_0000,
            ),
        )
    } else {
        let above2 = back(buf, (2 * stride) as int);
        let col = (n % (stride as int)) as u64;
        (
            splitmix_of(above ^ (col << 8) ^ 0xAAAA_0000_0000_AAAA),
            splitmix_of(above | (above2 << 8) | 0xBBBB_0000_0000_0000),
            splitmix_of((col << 8) ^ (b as u64) ^ 0xCCCC_0000_0000_CCCC),
        )
    }
}

/// The context hashes once the bytes end in `b`; the record contexts keep
/// their last values until two records are behind.
pub open spec fn hashes_after(
    hashes: Seq<u64>,
    buf: Seq<u8>,
    window: u64,
    word_hash: u64,
    stride: nat,
    bpp: nat,
    b: u8,
) -> Seq<u64> {
    let rec = if has_records(buf.len() as int, stride) {
        record_hashes(buf, stride, bpp, b)
    } else {
        (hashes[9], hashes[10], hashes[11])
    };
    seq![
        splitmix_of((window & 0xffff) ^ order_salt(2)),
        splitmix_of((window & 0xff_ffff) ^ order_salt(3)),
        splitmix_of((window & 0xffff_ffff) ^ order_salt(4)),
        splitmix_of((window & 0xff_ffff_ffff) ^ order_salt(5)),
        splitmix_of((window & 0xffff_ffff_ffff) ^ order_salt(6)),
        splitmix_of(window ^ 0x8888_8888_8888_8888),
        splitmix_of(word_hash ^ 0x0F0F_0F0F_0F0F_0F0F),
        splitmix_of(((window >> 8) & 0xffff) ^ 0x3333_0000_0000_3333),
        splitmix_of((window & 0xf0f0_f0f0) ^ 0x5555_0000_5555_0000),
        rec.0,
        rec.1,
        rec.2,
    ]
}

impl HistoryState {
    pub open spec fn init(stride: nat, bpp: nat) -> HistoryState {
        HistoryState {
            buf: Seq::empty(),
            window: 0,
            word_hash: 0,
            hashes: Seq::new(12, |i: int| 0u64),
            c0: 1,
            bitpos: 0,
            stride,
            bpp,
        }
    }

    pub open spec fn wf(self) -> bool {
        &&& self.hashes.len() == 12
        &&& partial_ok(self.c0, self.bitpos)
    }

    /// The last byte.
    pub open spec fn last(self) -> u64 {
        self.window & 0xff
    }

    /// Whether the record contexts are in use.
    pub open spec fn rec_active(self) -> bool {
        has_records(self.buf.len() as int, self.stride)
    }

    pub open spec fn with_byte(self, b: u8) -> HistoryState {
        let buf = self.buf.push(b);
        let window = (self.window << 8) | (b as u64);
        let word_hash = word_after(self.word_hash, b);
        HistoryState {
            buf,
            window,
            word_hash,
            hashes: hashes_after(self.hashes, buf, window, word_hash, self.stride, self.bpp, b),
            c0: 1,
            bitpos: 0,
            ..self
        }
    }

    /// `c0` with one more bit.
    pub open spec fn c0_after(self, one: bool) -> int {
        2 * self.c0 + if one {
            1int
        } else {
            0
        }
    }

    pub open spec fn with_bit(self, one: bool) -> HistoryState {
        if self.bitpos == 7 {
            self.with_byte((self.c0_after(one) - 256) as u8)
        } else {
            HistoryState {
                c0: self.c0_after(one) as u32,
                bitpos: (self.bitpos + 1) as u32,
                ..self
            }
        }
    }
}

/// The last byte is a byte.
pub proof fn lemma_last(window: u64)
    ensures
        window & 0xff <= 255,
{
    assert(window & 0xff <= 255) by (bit_vector);
}

pub struct History {
    pub buf: Vec<u8>,
    pub window: u64,
    pub word_hash: u64,
    pub hashes: [u64; 12],
    pub c0: u32,
    pub bitpos: u32,
    pub stride: usize,
    pub bpp: usize,
}

impl View for History {
    type V = HistoryState;

    open spec fn view(&self) -> HistoryState {
        HistoryState {
            buf: self.buf@,
            window: self.window,
            word_hash: self.word_hash,
            hashes: self.hashes@,
            c0: self.c0,
            bitpos: self.bitpos,
            stride: self.stride as nat,
            bpp: self.bpp as nat,
        }
    }
}

fn clamped_gradient(above: u64, left: u64, above_left: u64) -> (g: u64)
    requires
        above < 256,
        left < 256,
        above_left < 256,
    ensures
        g == gradient(above, left, above_left),
{
    let g: i64 = above as i64 + left as i64 - above_left as i64;
    let c: i64 = if g < -255 {
        -255
    } else if g > 510 {
        510
    } else {
        g
    };
    (c as u64) & 0x3ff
}

impl History {
    pub fn new(stride: usize, bpp: usize) -> (h: Self)
        ensures
            h@ == HistoryState::init(stride as nat, bpp as nat),
            h@.wf(),
    {
        let h = History {
            buf: Vec::new(),
            window: 0,
            word_hash: 0,
            hashes: [0u64; 12],
            c0: 1,
            bitpos: 0,
            stride,
            bpp,
        };
        assert(h@.hashes =~= HistoryState::init(stride as nat, bpp as nat).hashes);
        h
    }

    pub fn rec_active(&self) -> (r: bool)
        ensures
            r == self@.rec_active(),
    {
        self.stride > 0 && self.buf.len() / 2 >= self.stride
    }

    fn record_contexts(&self, b: u8) -> (r: (u64, u64, u64))
        requires
            has_records(self.buf@.len() as int, self.stride as nat),
        ensures
            r == record_hashes(self.buf@, self.stride as nat, self.bpp as nat, b),
    {
        let n: usize = self.buf.len();
        let s: usize = self.stride;
        let bpp: usize = self.bpp;
        let above: u64 = self.buf[n - s] as u64;
        if bpp > 0 {
            let left: u64 = if n >= bpp {
                self.buf[n - bpp] as u64
            } else {
                0
            };
            let above_left: u64 = if n - s >= bpp {
                self.buf[n - s - bpp] as u64
            } else {
                0
            };
            let above_right: u64 = if s > bpp {
                self.buf[n - s + bpp] as u64
            } else {
                above
            };
            let g: u64 = clamped_gradient(above, left, above_left);
            (
                splitmix(above | (left << 8) | 0xAAAA_0000_0000_0000),
                splitmix(above | (left << 8) | (above_left << 16) | 0xBBBB_0000_0000_0000),
                splitmix(g | (above_right << 10) | 0xCCCC_0000_0000_0000),
            )
        } else {
            let above2: u64 = self.buf[n - 2 * s] as u64;
            let col: u64 = (n % s) as u64;
            (
                splitmix(above ^ (col << 8) ^ 0xAAAA_0000_0000_AAAA),
                splitmix(above | (above2 << 8) | 0xBBBB_0000_0000_0000),
                splitmix((col << 8) ^ (b as u64) ^ 0xCCCC_0000_0000_CCCC),
            )
        }
    }

    /// Takes in a whole byte and computes the contexts that follow it.
    pub fn on_byte(&mut self, b: u8)
        requires
            old(self)@.wf(),
        ensures
            final(self)@ == old(self)@.with_byte(b),
            final(self)@.wf(),
    {
        let ghost before = self@;
        self.buf.push(b);
        self.window = (self.window << 8) | b as u64;
        let lower: u8 = b | 0x20;
        if (0x61 <= lower && lower <= 0x7a) || b >= 0x80 {
            self.word_hash = self.word_hash.wrapping_mul(GOLD) ^ splitmix(lower as u64 + 1);
        } else {
            self.word_hash = 0;
        }
        let w: u64 = self.window;
        let wh: u64 = self.word_hash;
        self.hashes[0] = splitmix((w & 0xffff) ^ 2u64.wrapping_mul(ORDER_SALT));
        self.hashes[1] = splitmix((w & 0xff_ffff) ^ 3u64.wrapping_mul(ORDER_SALT));
        self.hashes[2] = splitmix((w & 0xffff_ffff) ^ 4u64.wrapping_mul(ORDER_SALT));
        self.hashes[3] = splitmix((w & 0xff_ffff_ffff) ^ 5u64.wrapping_mul(ORDER_SALT));
        self.hashes[4] = splitmix((w & 0xffff_ffff_ffff) ^ 6u64.wrapping_mul(ORDER_SALT));
        self.hashes[5] = splitmix(w ^ 0x8888_8888_8888_8888);
        self.hashes[6] = splitmix(wh ^ 0x0F0F_0F0F_0F0F_0F0F);
        self.hashes[7] = splitmix(((w >> 8) & 0xffff) ^ 0x3333_0000_0000_3333);
        self.hashes[8] = splitmix((w & 0xf0f0_f0f0) ^ 0x5555_0000_5555_0000);
        if self.rec_active() {
            let r = self.record_contexts(b);
            self.hashes[9] = r.0;
            self.hashes[10] = r.1;
            self.hashes[11] = r.2;
        }
        self.c0 = 1;
        self.bitpos = 0;
        assert(self@.hashes =~= before.with_byte(b).hashes);
    }

    /// Takes in a bit; true where it ended a byte.
    pub fn push_bit(&mut self, one: bool) -> (whole: bool)
        requires
            old(self)@.wf(),
        ensures
            final(self)@ == old(self)@.with_bit(one),
            final(self)@.wf(),
            whole == (old(self)@.bitpos == 7),
    {
        let c: u32 = self.c0 * 2 + if one {
            1
        } else {
            0
        };
        if self.bitpos == 7 {
            self.on_byte((c - 256) as u8);
            true
        } else {
            self.c0 = c;
            self.bitpos = self.bitpos + 1;
            false
        }
    }
}

} // verus!

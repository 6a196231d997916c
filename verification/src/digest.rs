use vstd::prelude::*;

verus! {

/// A 256-bit content digest, held as four 64-bit words, most significant
/// first. Artifacts are addressed by digest; equality is by value, and the
/// hex rendering below names the artifact's directory on disk.
#[derive(Clone, Copy, Debug, PartialEq, Eq, Hash, Structural)]
pub struct Sha256Digest {
    pub w0: u64,
    pub w1: u64,
    pub w2: u64,
    pub w3: u64,
}

/// The lower-case hex character for a nibble value.
pub open spec fn hex_char_of(n: u64) -> char {
    if n == 0 {
        '0'
    } else if n == 1 {
        '1'
    } else if n == 2 {
        '2'
    } else if n == 3 {
        '3'
    } else if n == 4 {
        '4'
    } else if n == 5 {
        '5'
    } else if n == 6 {
        '6'
    } else if n == 7 {
        '7'
    } else if n == 8 {
        '8'
    } else if n == 9 {
        '9'
    } else if n == 10 {
        'a'
    } else if n == 11 {
        'b'
    } else if n == 12 {
        'c'
    } else if n == 13 {
        'd'
    } else if n == 14 {
        'e'
    } else {
        'f'
    }
}

/// Nibble `i` of a word, counting from the most significant (i = 0) to the
/// least significant (i = 15).
pub open spec fn nibble16(w: u64, i: int) -> u64 {
    (w >> ((60 - 4 * i) as u64)) & 0xf
}

/// The 16-character, zero-padded, lower-case hex rendering of a 64-bit word.
pub open spec fn hex16(w: u64) -> Seq<char> {
    Seq::new(16, |i: int| hex_char_of(nibble16(w, i)))
}

/// The 64-character, zero-padded, lower-case hex rendering of a digest.
pub open spec fn digest_hex(d: Sha256Digest) -> Seq<char> {
    hex16(d.w0) + hex16(d.w1) + hex16(d.w2) + hex16(d.w3)
}

/// Append the lower-case hex character for a nibble value to a string.
fn push_hex_char(s: &mut String, n: u64)
    requires
        n <= 0xf,
    ensures
        final(s)@ == old(s)@.push(hex_char_of(n)),
{
    let digit: &str = if n == 0 {
        "0"
    } else if n == 1 {
        "1"
    } else if n == 2 {
        "2"
    } else if n == 3 {
        "3"
    } else if n == 4 {
        "4"
    } else if n == 5 {
        "5"
    } else if n == 6 {
        "6"
    } else if n == 7 {
        "7"
    } else if n == 8 {
        "8"
    } else if n == 9 {
        "9"
    } else if n == 10 {
        "a"
    } else if n == 11 {
        "b"
    } else if n == 12 {
        "c"
    } else if n == 13 {
        "d"
    } else if n == 14 {
        "e"
    } else {
        "f"
    };
    proof {
        reveal_strlit("0");
        reveal_strlit("1");
        reveal_strlit("2");
        reveal_strlit("3");
        reveal_strlit("4");
        reveal_strlit("5");
        reveal_strlit("6");
        reveal_strlit("7");
        reveal_strlit("8");
        reveal_strlit("9");
        reveal_strlit("a");
        reveal_strlit("b");
        reveal_strlit("c");
        reveal_strlit("d");
        reveal_strlit("e");
        reveal_strlit("f");
    }
    s.append(digit);
    proof {
        assert(s@ =~= old(s)@.push(hex_char_of(n)));
    }
}

/// Append the 16-character hex rendering of a word to a string.
pub fn append_hex16(s: &mut String, w: u64)
    ensures
        final(s)@ == old(s)@ + hex16(w),
{
    let mut i: usize = 0;
    while i < 16
        invariant
            i <= 16,
            s@ == old(s)@ + hex16(w).take(i as int),
        decreases 16 - i,
    {
        let sh: u64 = 60 - 4 * (i as u64);
        let nib: u64 = (w >> sh) & 0xf;
        assert(nib <= 0xf) by (bit_vector)
            requires
                nib == (w >> sh) & 0xf,
        ;
        push_hex_char(s, nib);
        proof {
            assert(nib == nibble16(w, i as int));
            assert(s@ =~= old(s)@ + hex16(w).take(i + 1));
        }
        i = i + 1;
    }
    proof {
        assert(hex16(w).take(16) =~= hex16(w));
    }
}

impl Sha256Digest {
    /// The digest's four words, most significant first.
    pub open spec fn words(&self) -> (u64, u64, u64, u64) {
        (self.w0, self.w1, self.w2, self.w3)
    }

    /// Build a digest from its four words, most significant first.
    pub fn from_words(w0: u64, w1: u64, w2: u64, w3: u64) -> (d: Sha256Digest)
        ensures
            d.words() == (w0, w1, w2, w3),
    {
        Sha256Digest { w0, w1, w2, w3 }
    }

    /// The 64-character, zero-padded, lower-case hex rendering of the digest;
    /// it names the artifact's subdirectory under the cache root.
    pub fn to_hex(&self) -> (s: String)
        ensures
            s@ == digest_hex(*self),
    {
        let mut s = String::new();
        append_hex16(&mut s, self.w0);
        append_hex16(&mut s, self.w1);
        append_hex16(&mut s, self.w2);
        append_hex16(&mut s, self.w3);
        proof {
            assert(s@ =~= digest_hex(*self));
        }
        s
    }
}

impl From<u64> for Sha256Digest {
    /// A digest whose value is a small integer: convenient for tests and for
    /// callers that name artifacts by sequence number.
    fn from(n: u64) -> (d: Sha256Digest) {
        Sha256Digest { w0: 0, w1: 0, w2: 0, w3: n }
    }
}

impl vstd::std_specs::convert::FromSpecImpl<u64> for Sha256Digest {
    open spec fn obeys_from_spec() -> bool {
        true
    }

    open spec fn from_spec(n: u64) -> Sha256Digest {
        Sha256Digest { w0: 0, w1: 0, w2: 0, w3: n }
    }
}

} // verus!

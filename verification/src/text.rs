//! Text put together from literals and numbers.

use vstd::prelude::*;

verus! {

/// Calls `String::from_utf8`. Claims that it succeeds exactly on valid UTF-8,
/// and that the text is then what the bytes encode.
#[verifier::external_body]
pub(crate) fn text_of(bytes: Vec<u8>) -> (text: Option<String>)
    ensures
        text is Some <==> vstd::utf8::valid_utf8(bytes@),
        text matches Some(text) ==> text@ == vstd::utf8::decode_utf8(bytes@),
{
    String::from_utf8(bytes).ok()
}

/// One digit, in any base up to sixteen.
pub open spec fn digit(value: nat) -> char {
    if value < 10 {
        (48 + value) as char
    } else {
        (87 + value) as char
    }
}

/// A number in decimal.
pub open spec fn decimal(value: nat) -> Seq<char>
    decreases value,
{
    if value < 10 {
        seq![digit(value)]
    } else {
        decimal(value / 10).push(digit(value % 10))
    }
}

/// The last `width` hexadecimal digits of a number.
pub open spec fn hex(value: nat, width: nat) -> Seq<char>
    decreases width,
{
    if width == 0 {
        Seq::empty()
    } else {
        hex(value / 16, (width - 1) as nat).push(digit(value % 16))
    }
}

/// Joined texts encode as their encodings joined.
pub proof fn lemma_encode_joined(a: Seq<char>, b: Seq<char>)
    ensures
        vstd::utf8::encode_utf8(a + b) == vstd::utf8::encode_utf8(a) + vstd::utf8::encode_utf8(b),
    decreases a.len(),
{
    if a.len() == 0 {
        assert(a + b =~= b);
        assert(vstd::utf8::encode_utf8(a) + vstd::utf8::encode_utf8(b) =~= vstd::utf8::encode_utf8(
            b,
        ));
    } else {
        assert((a + b).drop_first() =~= a.drop_first() + b);
        lemma_encode_joined(a.drop_first(), b);
        assert(vstd::utf8::encode_utf8(a + b) =~= vstd::utf8::encode_utf8(a)
            + vstd::utf8::encode_utf8(b));
    }
}

/// Whether two texts are the same.
pub fn is_text(a: &str, b: &str) -> (same: bool)
    ensures
        same == (a@ == b@),
{
    let x = a.as_bytes();
    let y = b.as_bytes();
    proof {
        vstd::utf8::encode_utf8_decode_utf8(a@);
        vstd::utf8::encode_utf8_decode_utf8(b@);
    }
    if x.len() != y.len() {
        return false;
    }
    let mut i: usize = 0;
    while i < x.len()
        invariant
            x@ == vstd::utf8::encode_utf8(a@),
            y@ == vstd::utf8::encode_utf8(b@),
            x@.len() == y@.len(),
            i <= x@.len(),
            forall|k: int| 0 <= k < i ==> x@[k] == y@[k],
        decreases x.len() - i,
    {
        if x[i] != y[i] {
            return false;
        }
        i = i + 1;
    }
    assert(x@ =~= y@);
    true
}

/// A text under construction.
pub struct Text {
    bytes: Vec<u8>,
    shown: Ghost<Seq<char>>,
}

impl View for Text {
    type V = Seq<char>;

    closed spec fn view(&self) -> Seq<char> {
        self.shown@
    }
}

impl Text {
    #[verifier::type_invariant]
    spec fn wf(&self) -> bool {
        self.bytes@ == vstd::utf8::encode_utf8(self.shown@)
    }

    pub fn new() -> (text: Self)
        ensures
            text@ == Seq::<char>::empty(),
    {
        Text { bytes: Vec::new(), shown: Ghost(Seq::empty()) }
    }

    pub fn push_text(self, text: &str) -> (longer: Self)
        ensures
            longer@ == self@ + text@,
    {
        proof {
            use_type_invariant(&self);
            lemma_encode_joined(self.shown@, text@);
        }
        let mut bytes = self.bytes;
        crate::bytes::push_all(&mut bytes, text.as_bytes());
        Text { bytes, shown: Ghost(self.shown@ + text@) }
    }

    fn push_digit(self, value: u8) -> (longer: Self)
        requires
            value < 16,
        ensures
            longer@ == self@.push(digit(value as nat)),
    {
        proof {
            use_type_invariant(&self);
            let shown = seq![digit(value as nat)];
            lemma_encode_joined(self.shown@, shown);
            vstd::utf8::is_ascii_chars_encode_utf8(shown);
            assert(self.shown@ + shown =~= self.shown@.push(digit(value as nat)));
        }
        let mut bytes = self.bytes;
        let ghost before = bytes@;
        bytes.push(
            if value < 10 {
                48 + value
            } else {
                87 + value
            },
        );
        proof {
            let shown = seq![digit(value as nat)];
            assert(bytes@ =~= before + vstd::utf8::encode_utf8(shown));
        }
        Text { bytes, shown: Ghost(self.shown@.push(digit(value as nat))) }
    }

    pub fn push_decimal(self, value: u64) -> (longer: Self)
        ensures
            longer@ == self@ + decimal(value as nat),
        decreases value,
    {
        let ghost before = self@;
        let text = if value < 10 {
            self
        } else {
            self.push_decimal(value / 10)
        };
        let text = text.push_digit((value % 10) as u8);
        assert(text@ =~= before + decimal(value as nat));
        text
    }

    pub fn push_hex(self, value: u64, width: usize) -> (longer: Self)
        ensures
            longer@ == self@ + hex(value as nat, width as nat),
        decreases width,
    {
        let ghost before = self@;
        let text = if width == 0 {
            self
        } else {
            self.push_hex(value / 16, width - 1).push_digit((value % 16) as u8)
        };
        assert(text@ =~= before + hex(value as nat, width as nat));
        text
    }

    pub fn finish(self) -> (text: String)
        ensures
            text@ == self@,
    {
        proof {
            use_type_invariant(&self);
            vstd::utf8::encode_utf8_valid_utf8(self.shown@);
            vstd::utf8::encode_utf8_decode_utf8(self.shown@);
        }
        match text_of(self.bytes) {
            Some(text) => text,
            None => String::new(),
        }
    }
}

/// The value of a digit.
pub open spec fn digit_value(c: char) -> int {
    if '0' <= c <= '9' {
        c as int - '0' as int
    } else {
        c as int - 'a' as int + 10
    }
}

/// What a text says when it is read as digits to some base.
pub open spec fn number_said(text: Seq<char>, base: int) -> int
    decreases text.len(),
{
    if text.len() == 0 {
        0
    } else {
        base * number_said(text.drop_last(), base) + digit_value(text.last())
    }
}

/// A number in decimal reads back as the number, in digits from 0 to 9 and with
/// no zero in front of it.
pub proof fn lemma_decimal_reads_back(value: nat)
    ensures
        number_said(decimal(value), 10) == value,
        decimal(value).len() >= 1,
        forall|i: int|
            0 <= i < decimal(value).len() ==> '0' <= #[trigger] decimal(value)[i] <= '9',
        value > 0 ==> decimal(value)[0] != '0',
    decreases value,
{
    if value < 10 {
        assert(decimal(value).drop_last() =~= Seq::<char>::empty());
        reveal_with_fuel(number_said, 2);
    } else {
        lemma_decimal_reads_back(value / 10);
        assert(decimal(value).drop_last() =~= decimal(value / 10));
        assert(digit_value(digit(value % 10)) == value % 10);
        assert(decimal(value)[0] == decimal(value / 10)[0]);
    }
}

/// A number in hexadecimal is as wide as asked for and reads back as the number,
/// if it fits.
pub proof fn lemma_hex_reads_back(value: nat, width: nat)
    ensures
        hex(value, width).len() == width,
        number_said(hex(value, width), 16) == value as int % vstd::arithmetic::power::pow(16, width),
        forall|i: int|
            0 <= i < width ==> '0' <= #[trigger] hex(value, width)[i] <= '9' || 'a' <= hex(
                value,
                width,
            )[i] <= 'f',
    decreases width,
{
    if width == 0 {
        vstd::arithmetic::power::lemma_pow0(16);
        assert(value as int % 1 == 0);
    } else {
        let rest = (width - 1) as nat;
        lemma_hex_reads_back(value / 16, rest);
        assert(hex(value, width).drop_last() =~= hex(value / 16, rest));
        assert(digit_value(digit(value % 16)) == value % 16);
        let p = vstd::arithmetic::power::pow(16, rest);
        vstd::arithmetic::power::lemma_pow_positive(16, rest);
        vstd::arithmetic::power::lemma_pow_adds(16, 1, rest);
        vstd::arithmetic::power::lemma_pow1(16);
        vstd::arithmetic::div_mod::lemma_mod_breakdown(value as int, 16, p);
    }
}

} // verus!

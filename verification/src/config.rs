//! Layered configuration: values by section and item, looked up from the
//! layer of highest precedence down, and the parsers of their values.

use crate::bytes::{bytes_equal, copy_bytes};
use vstd::prelude::*;

verus! {

/// Where a layer comes from.
#[derive(Clone, Debug)]
pub enum ConfigOrigin {
    /// The configuration file of this path.
    File(Vec<u8>),
    /// The command line.
    CommandLine,
    /// The environment variable of this name.
    Environment(Vec<u8>),
}

/// A value, with the line of its file where it has one.
#[derive(Clone, Debug, PartialEq, Eq)]
pub struct ConfigValue {
    pub bytes: Vec<u8>,
    pub line: Option<usize>,
}

/// One value of a layer, under its section and item.
#[derive(Clone, Debug)]
pub struct ConfigItem {
    pub section: Vec<u8>,
    pub item: Vec<u8>,
    pub value: ConfigValue,
}

/// The values of one source. A value added later replaces an earlier one of
/// the same section and item.
#[derive(Clone, Debug)]
pub struct ConfigLayer {
    pub items: Vec<ConfigItem>,
    pub origin: ConfigOrigin,
    /// Whether the values of this layer may be used.
    pub trusted: bool,
}

/// A value that could not be read as what was asked for.
#[derive(Debug)]
pub struct ConfigParseError {
    pub origin: ConfigOrigin,
    pub line: Option<usize>,
    pub bytes: Vec<u8>,
}

/// What can go wrong with the configuration.
#[derive(Debug)]
pub enum ConfigError {
    Parse(ConfigParseError),
}

/// A source of configuration.
pub enum ConfigSource {
    /// Absolute path to a configuration file.
    AbsPath(Vec<u8>),
    /// A layer that is there already.
    Parsed(ConfigLayer),
}

/// Index of the last of the first `k` items that is filed under `section`
/// and `item`, or -1.
pub open spec fn last_match(items: Seq<ConfigItem>, section: Seq<u8>, item: Seq<u8>, k: int) -> int
    decreases k,
{
    if k <= 0 || k > items.len() {
        -1
    } else if items[k - 1].section@ == section && items[k - 1].item@ == item {
        k - 1
    } else {
        last_match(items, section, item, k - 1)
    }
}

impl ConfigLayer {
    /// An empty, trusted layer.
    pub fn new(origin: ConfigOrigin) -> (r: Self)
        ensures
            r.items@.len() == 0,
            r.origin == origin,
            r.trusted,
    {
        ConfigLayer { items: Vec::new(), origin, trusted: true }
    }

    /// Index of the value in force for `section` and `item`, or -1.
    pub open spec fn spec_index(&self, section: Seq<u8>, item: Seq<u8>) -> int {
        last_match(self.items@, section, item, self.items@.len() as int)
    }

    /// Files `value` under `section` and `item`, in the place of any
    /// earlier value.
    pub fn add(&mut self, section: Vec<u8>, item: Vec<u8>, value: Vec<u8>, line: Option<usize>)
        ensures
            final(self).items@ == old(self).items@.push(
                ConfigItem { section, item, value: ConfigValue { bytes: value, line } },
            ),
            final(self).origin == old(self).origin,
            final(self).trusted == old(self).trusted,
            final(self).spec_index(section@, item@) == old(self).items@.len(),
    {
        self.items.push(ConfigItem { section, item, value: ConfigValue { bytes: value, line } });
    }

    /// The value in force for `section` and `item`, if there is one.
    pub fn get(&self, section: &[u8], item: &[u8]) -> (r: Option<&ConfigValue>)
        ensures
            r is Some <==> self.spec_index(section@, item@) >= 0,
            r matches Some(v) ==> *v == self.items@[self.spec_index(section@, item@)].value,
    {
        let mut k: usize = self.items.len();
        while k > 0
            invariant
                k <= self.items@.len(),
                self.spec_index(section@, item@) == last_match(
                    self.items@,
                    section@,
                    item@,
                    k as int,
                ),
            decreases k,
        {
            let candidate = &self.items[k - 1];
            if bytes_equal(candidate.section.as_slice(), section) && bytes_equal(
                candidate.item.as_slice(),
                item,
            ) {
                return Some(&candidate.value);
            }
            k -= 1;
        }
        None
    }

    /// Whether the layer comes from the command line.
    pub fn is_from_command_line(&self) -> (r: bool)
        ensures
            r == (self.origin is CommandLine),
    {
        match self.origin {
            ConfigOrigin::CommandLine => true,
            _ => false,
        }
    }
}

/// The lower-case form of an ASCII letter; any other byte as it is.
pub open spec fn lower_byte(b: u8) -> u8 {
    if 65 <= b <= 90 {
        (b + 32) as u8
    } else {
        b
    }
}

/// `v` with its ASCII letters in lower case.
pub open spec fn lower(v: Seq<u8>) -> Seq<u8> {
    Seq::new(v.len(), |i: int| lower_byte(v[i]))
}

/// A copy in which the ASCII letters are in lower case.
pub fn to_ascii_lowercase(v: &[u8]) -> (r: Vec<u8>)
    ensures
        r@ == lower(v@),
{
    let mut out: Vec<u8> = Vec::new();
    let mut i: usize = 0;
    while i < v.len()
        invariant
            i <= v.len(),
            out@.len() == i,
            forall|k: int| 0 <= k < i ==> out@[k] == lower_byte(v@[k]),
        decreases v.len() - i,
    {
        let b = v[i];
        if 65 <= b && b <= 90 {
            out.push(b + 32);
        } else {
            out.push(b);
        }
        i += 1;
    }
    proof {
        assert(out@ =~= lower(v@));
    }
    out
}

/// The words that stand for true: `1`, `yes`, `true`, `on`, `always`.
pub open spec fn is_true_word(w: Seq<u8>) -> bool {
    ||| w == seq![49u8]
    ||| w == seq![121u8, 101, 115]
    ||| w == seq![116u8, 114, 117, 101]
    ||| w == seq![111u8, 110]
    ||| w == seq![97u8, 108, 119, 97, 121, 115]
}

/// The words that stand for false: `0`, `no`, `false`, `off`, `never`.
pub open spec fn is_false_word(w: Seq<u8>) -> bool {
    ||| w == seq![48u8]
    ||| w == seq![110u8, 111]
    ||| w == seq![102u8, 97, 108, 115, 101]
    ||| w == seq![111u8, 102, 102]
    ||| w == seq![110u8, 101, 118, 101, 114]
}

/// The boolean that a word stands for, whatever the case of its letters.
pub open spec fn spec_parse_bool(v: Seq<u8>) -> Option<bool> {
    if is_true_word(lower(v)) {
        Some(true)
    } else if is_false_word(lower(v)) {
        Some(false)
    } else {
        None
    }
}

fn is_word(v: &Vec<u8>, word: &[u8]) -> (r: bool)
    ensures
        r == (v@ == word@),
{
    bytes_equal(v.as_slice(), word)
}

/// Reads a boolean, whatever the case of its letters.
pub fn parse_bool(v: &[u8]) -> (r: Option<bool>)
    ensures
        r == spec_parse_bool(v@),
{
    let w = to_ascii_lowercase(v);
    let one: [u8; 1] = [49];
    let yes: [u8; 3] = [121, 101, 115];
    let truth: [u8; 4] = [116, 114, 117, 101];
    let on: [u8; 2] = [111, 110];
    let always: [u8; 6] = [97, 108, 119, 97, 121, 115];
    let zero: [u8; 1] = [48];
    let no: [u8; 2] = [110, 111];
    let falsehood: [u8; 5] = [102, 97, 108, 115, 101];
    let off: [u8; 3] = [111, 102, 102];
    let never: [u8; 5] = [110, 101, 118, 101, 114];
    proof {
        assert(one@ =~= seq![49u8]);
        assert(yes@ =~= seq![121u8, 101, 115]);
        assert(truth@ =~= seq![116u8, 114, 117, 101]);
        assert(on@ =~= seq![111u8, 110]);
        assert(always@ =~= seq![97u8, 108, 119, 97, 121, 115]);
        assert(zero@ =~= seq![48u8]);
        assert(no@ =~= seq![110u8, 111]);
        assert(falsehood@ =~= seq![102u8, 97, 108, 115, 101]);
        assert(off@ =~= seq![111u8, 102, 102]);
        assert(never@ =~= seq![110u8, 101, 118, 101, 114]);
    }
    if is_word(&w, one.as_slice()) || is_word(&w, yes.as_slice()) || is_word(&w, truth.as_slice())
        || is_word(&w, on.as_slice()) || is_word(&w, always.as_slice()) {
        Some(true)
    } else if is_word(&w, zero.as_slice()) || is_word(&w, no.as_slice()) || is_word(
        &w,
        falsehood.as_slice(),
    ) || is_word(&w, off.as_slice()) || is_word(&w, never.as_slice()) {
        Some(false)
    } else {
        None
    }
}

/// The number that the first `k` digits of `v` write, read as decimal.
pub open spec fn decimal_value(v: Seq<u8>, k: int) -> nat
    decreases k,
{
    if k <= 0 {
        0
    } else {
        decimal_value(v, k - 1) * 10 + (v[k - 1] - 48) as nat
    }
}

/// Every byte of `v` is a decimal digit.
pub open spec fn all_digits(v: Seq<u8>) -> bool {
    forall|i: int| 0 <= i < v.len() ==> 48 <= #[trigger] v[i] <= 57
}

/// The digits of `v`: all of `v`, but for one leading `+`.
pub open spec fn digits_of(v: Seq<u8>) -> Seq<u8> {
    if v.len() > 0 && v[0] == 43 {
        v.subrange(1, v.len() as int)
    } else {
        v
    }
}

/// The unsigned decimal number that `v` writes: digits alone, after at most
/// one `+`. Nothing where `v` holds anything else or the number is above
/// `max`.
pub open spec fn spec_parse_unsigned(v: Seq<u8>, max: nat) -> Option<nat> {
    let digits = digits_of(v);
    if digits.len() > 0 && all_digits(digits) && decimal_value(digits, digits.len() as int)
        <= max {
        Some(decimal_value(digits, digits.len() as int))
    } else {
        None
    }
}

/// More digits write no smaller a number.
pub proof fn lemma_decimal_value_grows(v: Seq<u8>, j: int, k: int)
    requires
        0 <= j <= k <= v.len(),
        all_digits(v),
    ensures
        decimal_value(v, j) <= decimal_value(v, k),
    decreases k - j,
{
    if j < k {
        lemma_decimal_value_grows(v, j, k - 1);
        assert(48 <= v[k - 1] <= 57);
    }
}

/// Reads an unsigned decimal number of at most 64 bits.
pub fn parse_u64(v: &[u8]) -> (r: Option<u64>)
    ensures
        r is Some <==> spec_parse_unsigned(v@, u64::MAX as nat) is Some,
        r matches Some(n) ==> Some(n as nat) == spec_parse_unsigned(v@, u64::MAX as nat),
{
    let start: usize = if v.len() > 0 && v[0] == 43 {
        1
    } else {
        0
    };
    let ghost digits = digits_of(v@);
    if start == v.len() {
        return None;
    }
    let mut n: u64 = 0;
    let mut i: usize = start;
    while i < v.len()
        invariant
            start <= i <= v.len(),
            digits == digits_of(v@),
            digits =~= v@.subrange(start as int, v@.len() as int),
            forall|k: int| 0 <= k < i - start ==> 48 <= #[trigger] digits[k] <= 57,
            n == decimal_value(digits, i - start),
        decreases v.len() - i,
    {
        let b = v[i];
        proof {
            assert(digits[i - start] == b);
        }
        if b < 48 || b > 57 {
            return None;
        }
        let d = (b - 48) as u64;
        if n > (u64::MAX - d) / 10 {
            proof {
                assert(decimal_value(digits, i - start + 1) > u64::MAX);
                if all_digits(digits) {
                    lemma_decimal_value_grows(digits, i - start + 1, digits.len() as int);
                }
            }
            return None;
        }
        n = n * 10 + d;
        i += 1;
    }
    Some(n)
}

/// Reads an unsigned decimal number of at most 32 bits.
pub fn parse_u32(v: &[u8]) -> (r: Option<u32>)
    ensures
        r is Some <==> spec_parse_unsigned(v@, u32::MAX as nat) is Some,
        r matches Some(n) ==> Some(n as nat) == spec_parse_unsigned(v@, u32::MAX as nat),
{
    match parse_u64(v) {
        Some(n) => if n <= u32::MAX as u64 {
            Some(n as u32)
        } else {
            None
        },
        None => None,
    }
}

/// The unit that a size ends with, as the length of the unit and its
/// multiplier: `g` or `gb`, `m` or `mb`, `k` or `kb`, or `b`, in any case.
/// The longest unit that fits is taken, but `b` alone only after the
/// others.
pub open spec fn spec_byte_size_unit(v: Seq<u8>) -> Option<(nat, u64)> {
    let w = lower(v);
    let n = w.len() as int;
    if n >= 1 && w[n - 1] == 103 {
        Some((1nat, 0x4000_0000u64))
    } else if n >= 2 && w[n - 2] == 103 && w[n - 1] == 98 {
        Some((2nat, 0x4000_0000u64))
    } else if n >= 1 && w[n - 1] == 109 {
        Some((1nat, 0x10_0000u64))
    } else if n >= 2 && w[n - 2] == 109 && w[n - 1] == 98 {
        Some((2nat, 0x10_0000u64))
    } else if n >= 1 && w[n - 1] == 107 {
        Some((1nat, 0x400u64))
    } else if n >= 2 && w[n - 2] == 107 && w[n - 1] == 98 {
        Some((2nat, 0x400u64))
    } else if n >= 1 && w[n - 1] == 98 {
        Some((1nat, 1u64))
    } else {
        None
    }
}

/// Finds the unit at the end of a size: how many bytes the unit takes, and
/// by what the number before it is to be multiplied.
pub fn byte_size_unit(v: &[u8]) -> (r: Option<(usize, u64)>)
    ensures
        r is Some <==> spec_byte_size_unit(v@) is Some,
        r matches Some(u) ==> spec_byte_size_unit(v@) == Some((u.0 as nat, u.1)) && u.0 <= v@.len(),
{
    let w = to_ascii_lowercase(v);
    let n = w.len();
    let last: u8 = if n >= 1 {
        w[n - 1]
    } else {
        0
    };
    let before: u8 = if n >= 2 {
        w[n - 2]
    } else {
        0
    };
    if n >= 1 && last == 103 {
        Some((1, 0x4000_0000))
    } else if n >= 2 && before == 103 && last == 98 {
        Some((2, 0x4000_0000))
    } else if n >= 1 && last == 109 {
        Some((1, 0x10_0000))
    } else if n >= 2 && before == 109 && last == 98 {
        Some((2, 0x10_0000))
    } else if n >= 1 && last == 107 {
        Some((1, 0x400))
    } else if n >= 2 && before == 107 && last == 98 {
        Some((2, 0x400))
    } else if n >= 1 && last == 98 {
        Some((1, 1))
    } else {
        None
    }
}

/// The configuration in force: layers in the order of their precedence,
/// the last one first.
pub struct Config {
    pub layers: Vec<ConfigLayer>,
}

/// Index of the last of the first `k` layers that is trusted and has a
/// value for `section` and `item`, or -1.
pub open spec fn deciding_layer(
    layers: Seq<ConfigLayer>,
    section: Seq<u8>,
    item: Seq<u8>,
    k: int,
) -> int
    decreases k,
{
    if k <= 0 || k > layers.len() {
        -1
    } else if layers[k - 1].trusted && layers[k - 1].spec_index(section, item) >= 0 {
        k - 1
    } else {
        deciding_layer(layers, section, item, k - 1)
    }
}

/// The values for `section` and `item` of layers `k` and below, trusted or
/// not, the last layer first.
pub open spec fn all_values(layers: Seq<ConfigLayer>, section: Seq<u8>, item: Seq<u8>, k: int) -> Seq<
    Seq<u8>,
>
    decreases k,
{
    if k <= 0 || k > layers.len() {
        Seq::empty()
    } else {
        let below = all_values(layers, section, item, k - 1);
        let layer = layers[k - 1];
        if layer.spec_index(section, item) >= 0 {
            seq![layer.items@[layer.spec_index(section, item)].value.bytes@] + below
        } else {
            below
        }
    }
}

/// `core::str::from_utf8`: the bytes as text, where they are well-formed
/// UTF-8, and nothing where they are not. The text is the sequence of the
/// characters that the bytes encode.
#[verifier::external_body]
fn utf8_text(bytes: &[u8]) -> (r: Option<&str>)
    ensures
        r is Some <==> vstd::utf8::valid_utf8(bytes@),
        r matches Some(text) ==> text@ == vstd::utf8::decode_utf8(bytes@),
{
    core::str::from_utf8(bytes).ok()
}

impl Config {
    /// A configuration of the given layers.
    pub fn from_layers(layers: Vec<ConfigLayer>) -> (r: Self)
        ensures
            r.layers == layers,
    {
        Config { layers }
    }

    /// Index of the layer that decides `section` and `item`, or -1.
    pub open spec fn spec_layer(&self, section: Seq<u8>, item: Seq<u8>) -> int {
        deciding_layer(self.layers@, section, item, self.layers@.len() as int)
    }

    /// The value in force for `section` and `item`, if any: that of the
    /// last trusted layer that has one.
    pub open spec fn spec_value(&self, section: Seq<u8>, item: Seq<u8>) -> Option<ConfigValue> {
        let k = self.spec_layer(section, item);
        if k >= 0 {
            Some(self.layers@[k].items@[self.layers@[k].spec_index(section, item)].value)
        } else {
            None
        }
    }

    /// Where the value in force comes from.
    pub open spec fn spec_origin(&self, section: Seq<u8>, item: Seq<u8>) -> OriginView {
        self.layers@[self.spec_layer(section, item)].origin@
    }

    /// The layer and the value of the first one found, or nothing.
    pub fn get_inner(&self, section: &[u8], item: &[u8]) -> (r: Option<(&ConfigLayer, &ConfigValue)>)
        ensures
            r is Some <==> self.spec_layer(section@, item@) >= 0,
            r matches Some(found) ==> *found.0 == self.layers@[self.spec_layer(section@, item@)]
                && Some(*found.1) == self.spec_value(section@, item@),
    {
        let mut k: usize = self.layers.len();
        while k > 0
            invariant
                k <= self.layers@.len(),
                self.spec_layer(section@, item@) == deciding_layer(
                    self.layers@,
                    section@,
                    item@,
                    k as int,
                ),
            decreases k,
        {
            let layer = &self.layers[k - 1];
            if layer.trusted {
                if let Some(v) = layer.get(section, item) {
                    return Some((layer, v));
                }
            }
            k -= 1;
        }
        None
    }

    /// The raw bytes of the value in force, if any.
    pub fn get(&self, section: &[u8], item: &[u8]) -> (r: Option<&[u8]>)
        ensures
            r is Some <==> self.spec_value(section@, item@) is Some,
            r matches Some(bytes) ==> bytes@ == self.spec_value(section@, item@).unwrap().bytes@,
    {
        match self.get_inner(section, item) {
            Some((_, value)) => Some(value.bytes.as_slice()),
            None => None,
        }
    }

    /// The raw bytes of the values of all layers, trusted or not, in the
    /// order of precedence.
    pub fn get_all(&self, section: &[u8], item: &[u8]) -> (r: Vec<&[u8]>)
        ensures
            r@.len() == all_values(self.layers@, section@, item@, self.layers@.len() as int).len(),
            forall|i: int|
                0 <= i < r@.len() ==> (#[trigger] r@[i])@ == all_values(
                    self.layers@,
                    section@,
                    item@,
                    self.layers@.len() as int,
                )[i],
    {
        let mut res: Vec<&[u8]> = Vec::new();
        let mut k: usize = 0;
        let ghost total = all_values(self.layers@, section@, item@, self.layers@.len() as int);
        // The layers are walked from the first to the last, and the result
        // is put in the order of precedence at the end.
        let mut found: Vec<&[u8]> = Vec::new();
        while k < self.layers.len()
            invariant
                k <= self.layers@.len(),
                found@.len() == all_values(self.layers@, section@, item@, k as int).len(),
                forall|i: int|
                    0 <= i < found@.len() ==> (#[trigger] found@[i])@ == all_values(
                        self.layers@,
                        section@,
                        item@,
                        k as int,
                    )[found@.len() - 1 - i],
            decreases self.layers@.len() - k,
        {
            if let Some(v) = self.layers[k].get(section, item) {
                found.push(v.bytes.as_slice());
            }
            k += 1;
        }
        let mut i: usize = found.len();
        while i > 0
            invariant
                i <= found@.len(),
                found@.len() == total.len(),
                res@.len() == found@.len() - i,
                forall|j: int| 0 <= j < found@.len() ==> (#[trigger] found@[j])@ == total[found@.len() - 1 - j],
                forall|j: int| 0 <= j < res@.len() ==> (#[trigger] res@[j])@ == total[j],
            decreases i,
        {
            i -= 1;
            res.push(found[i]);
        }
        res
    }

    /// The value in force read by `parse`: nothing where there is no
    /// value, an error where `parse` does not accept the value.
    pub fn get_parse<T, F: Fn(&[u8]) -> Option<T>>(&self, section: &[u8], item: &[u8], parse: F) -> (r:
        Result<Option<T>, ConfigParseError>)
        requires
            forall|bytes: &[u8]| parse.requires((bytes,)),
        ensures
            self.spec_value(section@, item@) is None ==> r matches Ok(None),
            self.spec_value(section@, item@) matches Some(value) ==> match r {
                Ok(Some(parsed)) => exists|bytes: &[u8]|
                    bytes@ == value.bytes@ && parse.ensures((bytes,), Some(parsed)),
                Ok(None) => false,
                Err(e) => e.line == value.line && e.bytes@ == value.bytes@ && e.origin@ == self.spec_origin(section@, item@) && exists|bytes: &[u8]|
                    bytes@ == value.bytes@ && parse.ensures((bytes,), None),
            },
    {
        match self.get_inner(section, item) {
            Some((layer, v)) => match parse(v.bytes.as_slice()) {
                Some(b) => Ok(Some(b)),
                None => Err(
                    ConfigParseError {
                        origin: layer.origin.copy(),
                        line: v.line,
                        bytes: copy_bytes(v.bytes.as_slice()),
                    },
                ),
            },
            None => Ok(None),
        }
    }

    /// The value in force as text, if there is a value. Fails where the
    /// value is not well-formed UTF-8.
    pub fn get_str(&self, section: &[u8], item: &[u8]) -> (r: Result<Option<&str>, ConfigParseError>)
        ensures
            match self.spec_value(section@, item@) {
                None => r matches Ok(None),
                Some(value) => if vstd::utf8::valid_utf8(value.bytes@) {
                    r matches Ok(Some(text)) && text@ == vstd::utf8::decode_utf8(value.bytes@)
                } else {
                    r matches Err(e) && e.line == value.line && e.bytes@ == value.bytes@ && e.origin@ == self.spec_origin(section@, item@)
                },
            },
    {
        match self.get_inner(section, item) {
            Some((layer, v)) => match utf8_text(v.bytes.as_slice()) {
                Some(text) => Ok(Some(text)),
                None => Err(
                    ConfigParseError {
                        origin: layer.origin.copy(),
                        line: v.line,
                        bytes: copy_bytes(v.bytes.as_slice()),
                    },
                ),
            },
            None => Ok(None),
        }
    }

    /// The value in force as an unsigned number, if there is a value.
    pub fn get_u32(&self, section: &[u8], item: &[u8]) -> (r: Result<Option<u32>, ConfigParseError>)
        ensures
            match self.spec_value(section@, item@) {
                None => r matches Ok(None),
                Some(value) => match spec_parse_unsigned(value.bytes@, u32::MAX as nat) {
                    Some(n) => r matches Ok(Some(m)) && m == n,
                    None => r matches Err(e) && e.line == value.line && e.bytes@ == value.bytes@ && e.origin@ == self.spec_origin(section@, item@),
                },
            },
    {
        match self.get_inner(section, item) {
            Some((layer, v)) => match parse_u32(v.bytes.as_slice()) {
                Some(b) => Ok(Some(b)),
                None => Err(
                    ConfigParseError {
                        origin: layer.origin.copy(),
                        line: v.line,
                        bytes: copy_bytes(v.bytes.as_slice()),
                    },
                ),
            },
            None => Ok(None),
        }
    }

    /// The value in force as a boolean, if there is a value.
    pub fn get_option(&self, section: &[u8], item: &[u8]) -> (r: Result<
        Option<bool>,
        ConfigParseError,
    >)
        ensures
            match self.spec_value(section@, item@) {
                None => r matches Ok(None),
                Some(value) => match spec_parse_bool(value.bytes@) {
                    Some(b) => r matches Ok(Some(c)) && c == b,
                    None => r matches Err(e) && e.line == value.line && e.bytes@ == value.bytes@ && e.origin@ == self.spec_origin(section@, item@),
                },
            },
    {
        match self.get_inner(section, item) {
            Some((layer, v)) => match parse_bool(v.bytes.as_slice()) {
                Some(b) => Ok(Some(b)),
                None => Err(
                    ConfigParseError {
                        origin: layer.origin.copy(),
                        line: v.line,
                        bytes: copy_bytes(v.bytes.as_slice()),
                    },
                ),
            },
            None => Ok(None),
        }
    }

    /// The value in force as a boolean; false where there is no value.
    pub fn get_bool(&self, section: &[u8], item: &[u8]) -> (r: Result<bool, ConfigError>)
        ensures
            match self.spec_value(section@, item@) {
                None => r matches Ok(false),
                Some(value) => match spec_parse_bool(value.bytes@) {
                    Some(b) => r matches Ok(c) && c == b,
                    None => r matches Err(ConfigError::Parse(e)) && e.line == value.line
                        && e.bytes@ == value.bytes@ && e.origin@ == self.spec_origin(
                        section@,
                        item@,
                    ),
                },
            },
    {
        match self.get_option(section, item) {
            Ok(Some(b)) => Ok(b),
            Ok(None) => Ok(false),
            Err(e) => Err(ConfigError::Parse(e)),
        }
    }
}

/// Whether `b` is white space: a blank, a tab, a line feed, a vertical tab,
/// a form feed or a carriage return.
pub open spec fn is_space(b: u8) -> bool {
    b == 32 || (9 <= b <= 13)
}

/// Number of white-space bytes that `v` begins with, from `from` on.
pub open spec fn spaces_from(v: Seq<u8>, from: int) -> int
    decreases v.len() - from,
{
    if from < 0 || from >= v.len() || !is_space(v[from]) {
        0
    } else {
        1 + spaces_from(v, from + 1)
    }
}

/// Number of white-space bytes that the first `to` bytes of `v` end with.
pub open spec fn spaces_before(v: Seq<u8>, to: int) -> int
    decreases to,
{
    if to <= 0 || to > v.len() || !is_space(v[to - 1]) {
        0
    } else {
        1 + spaces_before(v, to - 1)
    }
}

/// `v` without the white space that it begins and ends with.
pub open spec fn trimmed(v: Seq<u8>) -> Seq<u8> {
    let start = spaces_from(v, 0);
    if start >= v.len() {
        Seq::empty()
    } else {
        v.subrange(start, v.len() - spaces_before(v, v.len() as int))
    }
}

/// `spaces_from` counts white space, and stops at the first byte that is
/// none.
pub proof fn lemma_spaces_from(v: Seq<u8>, from: int)
    requires
        0 <= from <= v.len(),
    ensures
        0 <= spaces_from(v, from) <= v.len() - from,
        forall|i: int| from <= i < from + spaces_from(v, from) ==> is_space(v[i]),
        from + spaces_from(v, from) < v.len() ==> !is_space(v[from + spaces_from(v, from)]),
    decreases v.len() - from,
{
    if from < v.len() && is_space(v[from]) {
        lemma_spaces_from(v, from + 1);
    }
}

/// `spaces_before` counts white space, and stops at the last byte that is
/// none.
pub proof fn lemma_spaces_before(v: Seq<u8>, to: int)
    requires
        0 <= to <= v.len(),
    ensures
        0 <= spaces_before(v, to) <= to,
        forall|i: int| to - spaces_before(v, to) <= i < to ==> is_space(v[i]),
        to - spaces_before(v, to) > 0 ==> !is_space(v[to - spaces_before(v, to) - 1]),
    decreases to,
{
    if to > 0 && is_space(v[to - 1]) {
        lemma_spaces_before(v, to - 1);
    }
}

fn space(b: u8) -> (r: bool)
    ensures
        r == is_space(b),
{
    b == 32 || (9 <= b && b <= 13)
}

/// A copy of `v` without the white space that it begins and ends with.
pub fn trim(v: &[u8]) -> (r: Vec<u8>)
    ensures
        r@ == trimmed(v@),
{
    let mut start: usize = 0;
    while start < v.len() && space(v[start])
        invariant
            start <= v.len(),
            spaces_from(v@, 0) == start + spaces_from(v@, start as int),
        decreases v.len() - start,
    {
        start += 1;
    }
    if start == v.len() {
        return Vec::new();
    }
    let mut end: usize = v.len();
    proof {
        lemma_spaces_before(v@, v@.len() as int);
    }
    while end > start && space(v[end - 1])
        invariant
            start <= end <= v.len(),
            start < v.len(),
            !is_space(v@[start as int]),
            spaces_before(v@, v@.len() as int) == (v.len() - end) + spaces_before(v@, end as int),
        decreases end,
    {
        end -= 1;
    }
    proof {
        if end == start {
            assert(false) by {
                lemma_spaces_before(v@, v@.len() as int);
                lemma_spaces_before(v@, end as int);
            }
        }
    }
    copy_bytes(vstd::slice::slice_subrange(v, start, end))
}

/// What a line of a configuration file is.
#[derive(Clone, Debug, PartialEq, Eq)]
pub enum ConfigLine {
    /// White space alone, or a comment: the line begins with `;` or `#`.
    Blank,
    /// `[name]`: the items that follow belong to the section `name`.
    Section(Vec<u8>),
    /// `name = value`.
    Item { name: Vec<u8>, value: Vec<u8> },
    /// A line that begins with white space: more of the value of the item
    /// before.
    Continuation(Vec<u8>),
    /// `%include path`.
    Include(Vec<u8>),
    /// `%unset name`.
    Unset(Vec<u8>),
    /// None of these.
    Invalid,
}

/// What a line is, with byte strings as mathematical values.
pub enum LineKind {
    Blank,
    Section(Seq<u8>),
    Item { name: Seq<u8>, value: Seq<u8> },
    Continuation(Seq<u8>),
    Include(Seq<u8>),
    Unset(Seq<u8>),
    Invalid,
}

impl ConfigLine {
    /// The line with its byte strings as mathematical values.
    pub open spec fn view(self) -> LineKind {
        match self {
            ConfigLine::Blank => LineKind::Blank,
            ConfigLine::Section(name) => LineKind::Section(name@),
            ConfigLine::Item { name, value } => LineKind::Item { name: name@, value: value@ },
            ConfigLine::Continuation(value) => LineKind::Continuation(value@),
            ConfigLine::Include(path) => LineKind::Include(path@),
            ConfigLine::Unset(name) => LineKind::Unset(name@),
            ConfigLine::Invalid => LineKind::Invalid,
        }
    }
}

/// `v` begins with `word`.
pub open spec fn starts_with(v: Seq<u8>, word: Seq<u8>) -> bool {
    word.len() <= v.len() && v.subrange(0, word.len() as int) == word
}

/// `%include`.
pub open spec fn include_word() -> Seq<u8> {
    seq![37u8, 105, 110, 99, 108, 117, 100, 101]
}

/// `%unset`.
pub open spec fn unset_word() -> Seq<u8> {
    seq![37u8, 117, 110, 115, 101, 116]
}

/// Index of the last `]` of `v`, or -1.
pub open spec fn last_bracket(v: Seq<u8>, to: int) -> int
    decreases to,
{
    if to <= 0 || to > v.len() {
        -1
    } else if v[to - 1] == 93 {
        to - 1
    } else {
        last_bracket(v, to - 1)
    }
}

/// No `[` among the bytes of `v` from 1 up to `to`.
pub open spec fn no_open_bracket(v: Seq<u8>, to: int) -> bool {
    forall|i: int| 1 <= i < to ==> v[i] != 91
}

/// The first word of `v`: the bytes before the first white space.
pub open spec fn word_len(v: Seq<u8>, from: int) -> int
    decreases v.len() - from,
{
    if from < 0 || from >= v.len() || is_space(v[from]) {
        0
    } else {
        1 + word_len(v, from + 1)
    }
}

/// What a line of a configuration file is:
/// - an inclusion, where `%include` is followed by white space and a path;
/// - blank, where it begins with `;` or `#` or holds white space alone;
/// - a section, where it begins with `[` and has a `]` behind a name in
///   which no `[` occurs;
/// - a continuation, where it begins with white space;
/// - an item, where it has a `=` behind a name, the name and the value
///   taken without the white space around them;
/// - an unsetting, where `%unset` is followed by white space and a name;
/// - else invalid.
pub open spec fn line_kind(v: Seq<u8>) -> LineKind {
    let n = v.len() as int;
    if starts_with(v, include_word()) && n > 8 && is_space(v[8]) && trimmed(v.subrange(8, n)).len()
        > 0 {
        LineKind::Include(trimmed(v.subrange(8, n)))
    } else if n == 0 || v[0] == 59 || v[0] == 35 || spaces_from(v, 0) == n {
        LineKind::Blank
    } else if v[0] == 91 && last_bracket(v, n) >= 2 && no_open_bracket(v, last_bracket(v, n)) {
        LineKind::Section(v.subrange(1, last_bracket(v, n)))
    } else if is_space(v[0]) {
        LineKind::Continuation(trimmed(v))
    } else if v[0] != 61 && crate::bytes::byte_index(v, 61, 0) < n {
        LineKind::Item {
            name: trimmed(v.subrange(0, crate::bytes::byte_index(v, 61, 0))),
            value: trimmed(v.subrange(crate::bytes::byte_index(v, 61, 0) + 1, n)),
        }
    } else if starts_with(v, unset_word()) && n > 6 && is_space(v[6]) && word_len(
        v,
        6 + spaces_from(v, 6),
    ) > 0 {
        LineKind::Unset(
            v.subrange(6 + spaces_from(v, 6), 6 + spaces_from(v, 6) + word_len(v, 6 + spaces_from(v, 6))),
        )
    } else {
        LineKind::Invalid
    }
}

fn begins_with_word(v: &[u8], word: &[u8]) -> (r: bool)
    ensures
        r == starts_with(v@, word@),
{
    if word.len() > v.len() {
        return false;
    }
    bytes_equal(vstd::slice::slice_subrange(v, 0, word.len()), word)
}

/// Says what a line of a configuration file is.
pub fn classify_line(line: &[u8]) -> (r: ConfigLine)
    ensures
        r@ == line_kind(line@),
{
    let n = line.len();
    let inclusion: [u8; 8] = [37, 105, 110, 99, 108, 117, 100, 101];
    let unset: [u8; 6] = [37, 117, 110, 115, 101, 116];
    proof {
        assert(inclusion@ =~= include_word());
        assert(unset@ =~= unset_word());
    }
    if begins_with_word(line, inclusion.as_slice()) && n > 8 && space(line[8]) {
        let path = trim(vstd::slice::slice_subrange(line, 8, n));
        if path.len() > 0 {
            return ConfigLine::Include(path);
        }
    }
    if n == 0 || line[0] == 59 || line[0] == 35 {
        return ConfigLine::Blank;
    }
    let mut spaces: usize = 0;
    while spaces < n && space(line[spaces])
        invariant
            spaces <= n,
            n == line@.len(),
            spaces_from(line@, 0) == spaces + spaces_from(line@, spaces as int),
        decreases n - spaces,
    {
        spaces += 1;
    }
    if spaces == n {
        return ConfigLine::Blank;
    }
    proof {
        lemma_spaces_from(line@, 0);
    }
    if line[0] == 91 {
        let mut close: usize = n;
        while close > 0 && line[close - 1] != 93
            invariant
                close <= n,
                n == line@.len(),
                last_bracket(line@, n as int) == last_bracket(line@, close as int),
            decreases close,
        {
            close -= 1;
        }
        if close >= 3 {
            let mut clean = true;
            let mut i: usize = 1;
            while i < close - 1
                invariant
                    1 <= i <= close - 1,
                    close <= n,
                    n == line@.len(),
                    clean == (forall|k: int| 1 <= k < i ==> line@[k] != 91),
                decreases close - i,
            {
                if line[i] == 91 {
                    clean = false;
                }
                i += 1;
            }
            if clean {
                return ConfigLine::Section(
                    copy_bytes(vstd::slice::slice_subrange(line, 1, close - 1)),
                );
            }
        }
    }
    if space(line[0]) {
        return ConfigLine::Continuation(trim(line));
    }
    let equals = crate::bytes::find_byte(line, 61);
    if line[0] != 61 && equals < n {
        return ConfigLine::Item {
            name: trim(vstd::slice::slice_subrange(line, 0, equals)),
            value: trim(vstd::slice::slice_subrange(line, equals + 1, n)),
        };
    }
    if begins_with_word(line, unset.as_slice()) && n > 6 && space(line[6]) {
        let mut start: usize = 6;
        while start < n && space(line[start])
            invariant
                6 <= start <= n,
                n == line@.len(),
                spaces_from(line@, 6) == (start - 6) + spaces_from(line@, start as int),
            decreases n - start,
        {
            start += 1;
        }
        let mut end: usize = start;
        while end < n && !space(line[end])
            invariant
                start <= end <= n,
                n == line@.len(),
                word_len(line@, start as int) == (end - start) + word_len(line@, end as int),
            decreases n - end,
        {
            end += 1;
        }
        if end > start {
            return ConfigLine::Unset(copy_bytes(vstd::slice::slice_subrange(line, start, end)));
        }
    }
    ConfigLine::Invalid
}

/// An item of a layer as a mathematical value.
pub struct ItemView {
    pub section: Seq<u8>,
    pub item: Seq<u8>,
    pub bytes: Seq<u8>,
    pub line: Option<usize>,
}

impl ConfigItem {
    /// The item as a mathematical value.
    pub open spec fn view(self) -> ItemView {
        ItemView {
            section: self.section@,
            item: self.item@,
            bytes: self.value.bytes@,
            line: self.value.line,
        }
    }
}

/// The items of a layer as mathematical values.
pub open spec fn items_view(items: Seq<ConfigItem>) -> Seq<ItemView> {
    Seq::new(items.len(), |i: int| items[i]@)
}

/// The items that are not filed under `section` and `item`, in their
/// order.
pub open spec fn without(items: Seq<ItemView>, section: Seq<u8>, item: Seq<u8>) -> Seq<ItemView>
    decreases items.len(),
{
    if items.len() == 0 {
        Seq::empty()
    } else {
        let rest = without(items.drop_last(), section, item);
        if items.last().section == section && items.last().item == item {
            rest
        } else {
            rest.push(items.last())
        }
    }
}

impl ConfigLayer {
    /// Forgets the values filed under `section` and `item`.
    pub fn remove(&mut self, section: &[u8], item: &[u8])
        ensures
            items_view(final(self).items@) == without(items_view(old(self).items@), section@, item@),
            final(self).origin == old(self).origin,
            final(self).trusted == old(self).trusted,
    {
        let mut kept: Vec<ConfigItem> = Vec::new();
        let ghost all = items_view(self.items@);
        let mut i: usize = 0;
        proof {
            assert(all.take(0) =~= Seq::<ItemView>::empty());
            assert(items_view(kept@) =~= Seq::<ItemView>::empty());
        }
        while i < self.items.len()
            invariant
                i <= self.items@.len(),
                all == items_view(self.items@),
                self.origin == old(self).origin,
                self.trusted == old(self).trusted,
                self.items == old(self).items,
                items_view(kept@) == without(all.take(i as int), section@, item@),
            decreases self.items@.len() - i,
        {
            let candidate = &self.items[i];
            let ghost before = items_view(kept@);
            proof {
                assert(all.take(i + 1).drop_last() =~= all.take(i as int));
                assert(all.take(i + 1).last() == candidate@);
            }
            if !(bytes_equal(candidate.section.as_slice(), section) && bytes_equal(
                candidate.item.as_slice(),
                item,
            )) {
                let copy = ConfigItem {
                    section: copy_bytes(candidate.section.as_slice()),
                    item: copy_bytes(candidate.item.as_slice()),
                    value: ConfigValue {
                        bytes: copy_bytes(candidate.value.bytes.as_slice()),
                        line: candidate.value.line,
                    },
                };
                kept.push(copy);
                proof {
                    assert(items_view(kept@) =~= before.push(candidate@));
                }
            }
            i += 1;
        }
        proof {
            assert(all.take(i as int) =~= all);
        }
        self.items = kept;
    }
}

/// What the parser of a configuration file asks of its caller after a
/// line.
#[derive(Debug, PartialEq, Eq)]
pub enum ParseStep {
    /// Nothing: hand over the next line.
    Next,
    /// Read the file of this path, relative to the file that is read, and
    /// put its layers before what follows.
    Include(Vec<u8>),
    /// The line is none that a configuration file can hold.
    Invalid,
}

/// Reads a configuration file line by line into a layer.
pub struct LayerParser {
    pub layer: ConfigLayer,
    /// The section that items are filed under.
    pub section: Vec<u8>,
    /// Number of lines read.
    pub line: usize,
    /// The line before was an item, or a continuation or comment behind
    /// one: a continuation may follow.
    pub open_item: bool,
}

/// The state of a parser as a mathematical value.
pub struct ParserView {
    pub items: Seq<ItemView>,
    pub section: Seq<u8>,
    pub line: nat,
    pub open_item: bool,
}

/// Whether a line is a comment: it begins with `;` or `#`.
pub open spec fn is_comment(line: Seq<u8>) -> bool {
    line.len() > 0 && (line[0] == 59 || line[0] == 35)
}

/// The state of a parser after a line.
pub open spec fn after_line(st: ParserView, line: Seq<u8>) -> ParserView {
    let counted = ParserView { line: st.line + 1, ..st };
    match line_kind(line) {
        LineKind::Blank => ParserView { open_item: st.open_item && is_comment(line), ..counted },
        LineKind::Section(name) => ParserView { section: name, open_item: false, ..counted },
        LineKind::Item { name, value } => ParserView {
            items: st.items.push(
                ItemView {
                    section: st.section,
                    item: name,
                    bytes: value,
                    line: Some((st.line + 1) as usize),
                },
            ),
            open_item: true,
            ..counted
        },
        LineKind::Continuation(more) => if st.open_item && st.items.len() > 0 {
            ParserView {
                items: st.items.update(
                    st.items.len() - 1,
                    ItemView { bytes: st.items.last().bytes.push(10u8) + more, ..st.items.last() },
                ),
                ..counted
            }
        } else {
            ParserView { open_item: false, ..counted }
        },
        LineKind::Include(_) => ParserView { open_item: false, ..counted },
        LineKind::Unset(name) => ParserView {
            items: without(st.items, st.section, name),
            open_item: false,
            ..counted
        },
        LineKind::Invalid => ParserView { open_item: false, ..counted },
    }
}

/// What the parser asks of its caller after a line.
pub open spec fn step_after(st: ParserView, line: Seq<u8>) -> Option<Seq<u8>> {
    match line_kind(line) {
        LineKind::Include(path) => Some(path),
        _ => None,
    }
}

/// Whether the line is one that the parser cannot take.
pub open spec fn line_refused(st: ParserView, line: Seq<u8>) -> bool {
    match line_kind(line) {
        LineKind::Invalid => true,
        LineKind::Continuation(_) => !(st.open_item && st.items.len() > 0),
        _ => false,
    }
}

impl LayerParser {
    /// The state of the parser as a mathematical value.
    pub open spec fn view(self) -> ParserView {
        ParserView {
            items: items_view(self.layer.items@),
            section: self.section@,
            line: self.line as nat,
            open_item: self.open_item,
        }
    }

    /// A parser that has read nothing, for a file of the given origin.
    pub fn new(origin: ConfigOrigin) -> (r: Self)
        ensures
            r@ == (ParserView {
                items: Seq::empty(),
                section: Seq::empty(),
                line: 0,
                open_item: false,
            }),
            r.layer.origin == origin,
            r.layer.trusted,
    {
        let r = LayerParser {
            layer: ConfigLayer::new(origin),
            section: Vec::new(),
            line: 0,
            open_item: false,
        };
        proof {
            assert(items_view(r.layer.items@) =~= Seq::<ItemView>::empty());
        }
        r
    }

    /// Takes the next line of the file, without its line feed.
    pub fn feed(&mut self, line: &[u8]) -> (r: ParseStep)
        requires
            old(self).line < usize::MAX,
        ensures
            final(self)@ == after_line(old(self)@, line@),
            final(self).layer.origin == old(self).layer.origin,
            final(self).layer.trusted == old(self).layer.trusted,
            match r {
                ParseStep::Next => !line_refused(old(self)@, line@) && step_after(
                    old(self)@,
                    line@,
                ) is None,
                ParseStep::Include(path) => step_after(old(self)@, line@) == Some(path@),
                ParseStep::Invalid => line_refused(old(self)@, line@),
            },
    {
        self.line = self.line + 1;
        let ghost items0 = items_view(self.layer.items@);
        match classify_line(line) {
            ConfigLine::Blank => {
                let comment = line.len() > 0 && (line[0] == 59 || line[0] == 35);
                self.open_item = self.open_item && comment;
                ParseStep::Next
            },
            ConfigLine::Section(name) => {
                self.section = name;
                self.open_item = false;
                ParseStep::Next
            },
            ConfigLine::Item { name, value } => {
                let section = copy_bytes(self.section.as_slice());
                let ghost added = ItemView {
                    section: section@,
                    item: name@,
                    bytes: value@,
                    line: Some(self.line),
                };
                self.layer.add(section, name, value, Some(self.line));
                self.open_item = true;
                proof {
                    assert(items_view(self.layer.items@) =~= items0.push(added));
                }
                ParseStep::Next
            },
            ConfigLine::Continuation(more) => {
                let n = self.layer.items.len();
                if self.open_item && n > 0 {
                    let ghost last = self.layer.items@[n - 1]@;
                    let item = &mut self.layer.items[n - 1];
                    item.value.bytes.push(10);
                    crate::bytes::push_bytes(&mut item.value.bytes, more.as_slice());
                    proof {
                        assert(items_view(self.layer.items@) =~= items0.update(
                            n - 1,
                            ItemView { bytes: last.bytes.push(10u8) + more@, ..last },
                        ));
                    }
                    ParseStep::Next
                } else {
                    self.open_item = false;
                    ParseStep::Invalid
                }
            },
            ConfigLine::Include(path) => {
                self.open_item = false;
                ParseStep::Include(path)
            },
            ConfigLine::Unset(name) => {
                let section = copy_bytes(self.section.as_slice());
                self.layer.remove(section.as_slice(), name.as_slice());
                self.open_item = false;
                ParseStep::Next
            },
            ConfigLine::Invalid => {
                self.open_item = false;
                ParseStep::Invalid
            },
        }
    }
}

/// Where a layer comes from, as a mathematical value.
pub enum OriginView {
    File(Seq<u8>),
    CommandLine,
    Environment(Seq<u8>),
}

impl ConfigOrigin {
    /// The origin as a mathematical value.
    pub open spec fn view(self) -> OriginView {
        match self {
            ConfigOrigin::File(path) => OriginView::File(path@),
            ConfigOrigin::CommandLine => OriginView::CommandLine,
            ConfigOrigin::Environment(name) => OriginView::Environment(name@),
        }
    }

    /// A copy of the origin.
    pub fn copy(&self) -> (r: Self)
        ensures
            r@ == self@,
    {
        match self {
            ConfigOrigin::File(path) => ConfigOrigin::File(copy_bytes(path.as_slice())),
            ConfigOrigin::CommandLine => ConfigOrigin::CommandLine,
            ConfigOrigin::Environment(name) => ConfigOrigin::Environment(
                copy_bytes(name.as_slice()),
            ),
        }
    }
}

/// A layer as a mathematical value.
pub struct LayerView {
    pub items: Seq<ItemView>,
    pub origin: OriginView,
    pub trusted: bool,
}

impl ConfigLayer {
    /// The layer as a mathematical value.
    pub open spec fn view(self) -> LayerView {
        LayerView { items: items_view(self.items@), origin: self.origin@, trusted: self.trusted }
    }

    /// A copy of the layer.
    pub fn copy(&self) -> (r: Self)
        ensures
            r@ == self@,
    {
        let mut items: Vec<ConfigItem> = Vec::new();
        let mut i: usize = 0;
        while i < self.items.len()
            invariant
                i <= self.items@.len(),
                items@.len() == i,
                forall|k: int| 0 <= k < i ==> (#[trigger] items@[k])@ == self.items@[k]@,
            decreases self.items@.len() - i,
        {
            let item = &self.items[i];
            items.push(
                ConfigItem {
                    section: copy_bytes(item.section.as_slice()),
                    item: copy_bytes(item.item.as_slice()),
                    value: ConfigValue {
                        bytes: copy_bytes(item.value.bytes.as_slice()),
                        line: item.value.line,
                    },
                },
            );
            i += 1;
        }
        let r = ConfigLayer { items, origin: self.origin.copy(), trusted: self.trusted };
        proof {
            assert(items_view(r.items@) =~= items_view(self.items@));
        }
        r
    }
}

/// Layers as mathematical values.
pub open spec fn layers_view(layers: Seq<ConfigLayer>) -> Seq<LayerView> {
    Seq::new(layers.len(), |i: int| layers[i]@)
}

/// The layers that come from the command line (`wanted`), or those that do
/// not, in their order.
pub open spec fn layers_from_command_line(layers: Seq<LayerView>, wanted: bool) -> Seq<LayerView>
    decreases layers.len(),
{
    if layers.len() == 0 {
        Seq::empty()
    } else {
        let rest = layers_from_command_line(layers.drop_last(), wanted);
        if (layers.last().origin is CommandLine) == wanted {
            rest.push(layers.last())
        } else {
            rest
        }
    }
}

impl Config {
    /// The configuration with the layers of a repository: they go behind
    /// the layers of this configuration that do not come from the command
    /// line, and before those that do.
    pub fn combine_with_repo(&self, repo_layers: Vec<ConfigLayer>) -> (r: Self)
        ensures
            layers_view(r.layers@) == layers_from_command_line(layers_view(self.layers@), false)
                + layers_view(repo_layers@) + layers_from_command_line(
                layers_view(self.layers@),
                true,
            ),
    {
        let ghost all = layers_view(self.layers@);
        let mut layers: Vec<ConfigLayer> = Vec::new();
        let mut i: usize = 0;
        proof {
            assert(all.take(0) =~= Seq::<LayerView>::empty());
            assert(layers_view(layers@) =~= Seq::<LayerView>::empty());
        }
        while i < self.layers.len()
            invariant
                i <= self.layers@.len(),
                all == layers_view(self.layers@),
                layers_view(layers@) == layers_from_command_line(all.take(i as int), false),
            decreases self.layers@.len() - i,
        {
            let ghost before = layers_view(layers@);
            proof {
                assert(all.take(i + 1).drop_last() =~= all.take(i as int));
                assert(all.take(i + 1).last() == self.layers@[i as int]@);
            }
            if !self.layers[i].is_from_command_line() {
                layers.push(self.layers[i].copy());
                proof {
                    assert(layers_view(layers@) =~= before.push(self.layers@[i as int]@));
                }
            }
            i += 1;
        }
        proof {
            assert(all.take(i as int) =~= all);
        }
        let ghost others = layers_view(layers@);
        let mut repo_layers = repo_layers;
        let ghost repo = layers_view(repo_layers@);
        layers.append(&mut repo_layers);
        proof {
            assert(layers_view(layers@) =~= others + repo);
        }
        let mut j: usize = 0;
        proof {
            assert(layers_view(layers@) =~= others + repo + layers_from_command_line(
                all.take(0),
                true,
            ));
        }
        while j < self.layers.len()
            invariant
                j <= self.layers@.len(),
                all == layers_view(self.layers@),
                layers_view(layers@) == others + repo + layers_from_command_line(
                    all.take(j as int),
                    true,
                ),
            decreases self.layers@.len() - j,
        {
            let ghost before = layers_view(layers@);
            proof {
                assert(all.take(j + 1).drop_last() =~= all.take(j as int));
                assert(all.take(j + 1).last() == self.layers@[j as int]@);
            }
            if self.layers[j].is_from_command_line() {
                layers.push(self.layers[j].copy());
                proof {
                    assert(layers_view(layers@) =~= before.push(self.layers@[j as int]@));
                }
            }
            j += 1;
        }
        proof {
            assert(all.take(j as int) =~= all);
        }
        Config { layers }
    }
}

/// The item that an argument of the command line sets: `section.item=value`,
/// the section taken up to the first dot before the first `=`, with no
/// white space around the three parts. Nothing where the argument has no
/// `=`, or no dot before it.
pub open spec fn cli_item(arg: Seq<u8>) -> Option<ItemView> {
    let equals = crate::bytes::byte_index(arg, 61, 0);
    if equals >= arg.len() {
        None
    } else {
        let name = trimmed(arg.subrange(0, equals));
        let dot = crate::bytes::byte_index(name, 46, 0);
        if dot >= name.len() {
            None
        } else {
            Some(
                ItemView {
                    section: name.subrange(0, dot),
                    item: name.subrange(dot + 1, name.len() as int),
                    bytes: trimmed(arg.subrange(equals + 1, arg.len() as int)),
                    line: None,
                },
            )
        }
    }
}

/// The items that the first `k` arguments set.
pub open spec fn cli_items(args: Seq<Vec<u8>>, k: int) -> Seq<ItemView>
    decreases k,
{
    if k <= 0 || k > args.len() {
        Seq::empty()
    } else {
        cli_items(args, k - 1).push(cli_item(args[k - 1]@).unwrap())
    }
}

/// Index of the first argument that sets no item, or the number of
/// arguments.
pub open spec fn first_bad_arg(args: Seq<Vec<u8>>, from: int) -> int
    decreases args.len() - from,
{
    if from < 0 || from >= args.len() {
        args.len() as int
    } else if cli_item(args[from]@) is None {
        from
    } else {
        first_bad_arg(args, from + 1)
    }
}

impl ConfigLayer {
    /// The layer of the items set on the command line, each argument of the
    /// form `section.item=value`. No layer where there are no arguments.
    /// Fails at the first argument of another form.
    pub fn parse_cli_args(args: &Vec<Vec<u8>>) -> (r: Result<Option<ConfigLayer>, ConfigError>)
        ensures
            match r {
                Ok(None) => args@.len() == 0,
                Ok(Some(layer)) => args@.len() > 0 && first_bad_arg(args@, 0) == args@.len()
                    && layer@ == (LayerView {
                    items: cli_items(args@, args@.len() as int),
                    origin: OriginView::CommandLine,
                    trusted: true,
                }),
                Err(ConfigError::Parse(e)) => first_bad_arg(args@, 0) < args@.len() && e.bytes@
                    == args@[first_bad_arg(args@, 0)]@ && e.line is None && e.origin
                    is CommandLine,
            },
    {
        if args.len() == 0 {
            return Ok(None);
        }
        let mut layer = ConfigLayer::new(ConfigOrigin::CommandLine);
        let mut i: usize = 0;
        proof {
            assert(items_view(layer.items@) =~= cli_items(args@, 0));
        }
        while i < args.len()
            invariant
                i <= args@.len(),
                args@.len() > 0,
                layer.origin is CommandLine,
                layer.trusted,
                first_bad_arg(args@, 0) == first_bad_arg(args@, i as int),
                items_view(layer.items@) == cli_items(args@, i as int),
            decreases args@.len() - i,
        {
            let arg = args[i].as_slice();
            let equals = crate::bytes::find_byte(arg, 61);
            let ghost before = items_view(layer.items@);
            if equals >= arg.len() {
                return Err(
                    ConfigError::Parse(
                        ConfigParseError {
                            origin: ConfigOrigin::CommandLine,
                            line: None,
                            bytes: copy_bytes(arg),
                        },
                    ),
                );
            }
            let name = trim(vstd::slice::slice_subrange(arg, 0, equals));
            let dot = crate::bytes::find_byte(name.as_slice(), 46);
            if dot >= name.len() {
                return Err(
                    ConfigError::Parse(
                        ConfigParseError {
                            origin: ConfigOrigin::CommandLine,
                            line: None,
                            bytes: copy_bytes(arg),
                        },
                    ),
                );
            }
            let section = copy_bytes(vstd::slice::slice_subrange(name.as_slice(), 0, dot));
            let item = copy_bytes(vstd::slice::slice_subrange(name.as_slice(), dot + 1, name.len()));
            let value = trim(vstd::slice::slice_subrange(arg, equals + 1, arg.len()));
            layer.add(section, item, value, None);
            proof {
                assert(items_view(layer.items@) =~= before.push(cli_item(args@[i as int]@).unwrap()));
            }
            i += 1;
        }
        Ok(Some(layer))
    }
}

} // verus!

//! Frame sources: screens and windows named by a text id, and cameras.
use vstd::prelude::*;

verus! {

/// The decimal digits, in order.
pub open spec fn digit_chars() -> Seq<char> {
    seq!['0', '1', '2', '3', '4', '5', '6', '7', '8', '9']
}

/// Decimal text of `n`, without sign or leading zeros.
pub open spec fn decimal(n: nat) -> Seq<char>
    decreases n,
{
    if n < 10 {
        seq![digit_chars()[n as int]]
    } else {
        decimal(n / 10).push(digit_chars()[(n % 10) as int])
    }
}

pub open spec fn is_digit(c: char) -> bool {
    '0' <= c <= '9'
}

/// Value of a text of decimal digits.
pub open spec fn digits_value(s: Seq<char>) -> int
    decreases s.len(),
{
    if s.len() == 0 {
        0
    } else {
        digits_value(s.drop_last()) * 10 + (s.last() as int - '0' as int)
    }
}

/// Value of a text that must be one or more decimal digits fitting in `u32`.
pub open spec fn parse_digits(digits: Seq<char>) -> Option<u32> {
    if digits.len() == 0 || !(forall|i: int| 0 <= i < digits.len() ==> is_digit(#[trigger] digits[i]))
        || digits_value(digits) > u32::MAX {
        None
    } else {
        Some(digits_value(digits) as u32)
    }
}

/// How `str::parse::<u32>` reads a text: an optional `+`, then one or more
/// decimal digits whose value fits in `u32`; anything else is `None`.
pub open spec fn parse_u32_spec(s: Seq<char>) -> Option<u32> {
    parse_digits(if s.len() > 0 && s[0] == '+' { s.drop_first() } else { s })
}

/// A monitor or a window that frames can be captured from.
#[derive(PartialEq, Eq, Structural, Clone, Copy)]
pub enum ScreenSource {
    Monitor(u32),
    Window(u32),
}

/// Text id of a screen source, as the front end receives it.
pub open spec fn source_id_text(source: ScreenSource) -> Seq<char> {
    match source {
        ScreenSource::Monitor(id) => "monitor:"@ + decimal(id as nat),
        ScreenSource::Window(id) => "window:"@ + decimal(id as nat),
    }
}

/// The source named by a text id, or the message that refuses it.
pub open spec fn parse_source_spec(s: Seq<char>) -> Result<ScreenSource, Seq<char>> {
    if s.len() >= 8 && s.subrange(0, 8) == "monitor:"@ {
        match parse_u32_spec(s.subrange(8, s.len() as int)) {
            Some(id) => Ok(ScreenSource::Monitor(id)),
            None => Err("Некорректный id монитора"@),
        }
    } else if s.len() >= 7 && s.subrange(0, 7) == "window:"@ {
        match parse_u32_spec(s.subrange(7, s.len() as int)) {
            Some(id) => Ok(ScreenSource::Window(id)),
            None => Err("Некорректный id окна"@),
        }
    } else {
        Err("Неизвестный источник экрана"@)
    }
}

/// A monitor or window offered to the user.
pub struct ScreenSourceInfo {
    pub id: String,
    pub label: String,
    pub width: u32,
    pub height: u32,
    /// `"monitor"` or `"window"`.
    pub kind: String,
}

/// A camera offered to the user.
pub struct CameraDeviceInfo {
    pub index: u32,
    pub name: String,
    pub description: String,
    /// OBS's virtual camera shows up as an ordinary camera; its name gives it away.
    pub is_probably_obs_virtual_camera: bool,
}

/// Lower-case form of a text, as `str::to_lowercase` gives it.
pub uninterp spec fn lowercase(text: Seq<char>) -> Seq<char>;

/// Whether `needle` occurs in `hay`.
pub open spec fn contains_text(hay: Seq<char>, needle: Seq<char>) -> bool {
    exists|i: int|
        0 <= i && i + needle.len() <= hay.len() && #[trigger] hay.subrange(i, i + needle.len())
            == needle
}

/// Lower-case form of `text`.
///
/// Calls `str::to_lowercase`. Claimed: the result is the named lower-case
/// form of the text.
#[verifier::external_body]
fn to_lowercase(text: &str) -> (r: String)
    ensures
        r@ == lowercase(text@),
{
    text.to_lowercase()
}

/// The text of decimal digit `d`.
fn digit_text(d: u32) -> (r: String)
    requires
        d < 10,
    ensures
        r@ == seq![digit_chars()[d as int]],
{
    let digits = "0123456789";
    proof {
        reveal_strlit("0123456789");
        assert(digits@ =~= digit_chars());
    }
    let symbol = digits.substring_char(d as usize, d as usize + 1);
    proof {
        assert(symbol@ =~= seq![digit_chars()[d as int]]);
    }
    String::from_str(symbol)
}

/// Decimal text of `n`.
pub fn decimal_text(n: u32) -> (r: String)
    ensures
        r@ == decimal(n as nat),
    decreases n,
{
    if n < 10 {
        digit_text(n)
    } else {
        let mut text = decimal_text(n / 10);
        let last = digit_text(n % 10);
        text.append(last.as_str());
        text
    }
}

/// Reads a `u32` the way `str::parse::<u32>` does; `None` where it fails.
pub fn parse_u32(text: &str) -> (r: Option<u32>)
    ensures
        r == parse_u32_spec(text@),
{
    let len = text.unicode_len();
    let mut start: usize = 0;
    if len > 0 && text.get_char(0) == '+' {
        start = 1;
    }
    let ghost digits = if text@.len() > 0 && text@[0] == '+' {
        text@.drop_first()
    } else {
        text@
    };
    proof {
        assert(digits =~= text@.subrange(start as int, len as int));
        assert(parse_u32_spec(text@) == parse_digits(digits));
    }
    if start == len {
        return None;
    }
    let mut value: u64 = 0;
    let mut overflow = false;
    let mut i = start;
    while i < len
        invariant
            len == text@.len(),
            parse_u32_spec(text@) == parse_digits(digits),
            start <= i <= len,
            digits =~= text@.subrange(start as int, len as int),
            forall|k: int| start <= k < i ==> is_digit(#[trigger] text@[k]),
            !overflow ==> value == digits_value(text@.subrange(start as int, i as int)),
            overflow ==> digits_value(text@.subrange(start as int, i as int)) > u32::MAX,
            value <= u32::MAX,
            digits_value(text@.subrange(start as int, i as int)) >= 0,
        decreases len - i,
    {
        let c = text.get_char(i);
        if !('0' <= c && c <= '9') {
            proof {
                assert(digits[i - start] == c);
                assert(!is_digit(digits[i - start]));
                assert(!(forall|k: int| 0 <= k < digits.len() ==> is_digit(#[trigger] digits[k])));
                assert(parse_digits(digits) is None);
            }
            return None;
        }
        let d = (c as u32 - '0' as u32) as u64;
        proof {
            let prefix = text@.subrange(start as int, i + 1);
            assert(prefix.drop_last() =~= text@.subrange(start as int, i as int));
            assert(digits_value(prefix) == digits_value(text@.subrange(start as int, i as int)) * 10
                + d);
        }
        if !overflow {
            let next = value * 10 + d;
            if next > 4294967295u64 {
                overflow = true;
            } else {
                value = next;
            }
        }
        i = i + 1;
    }
    proof {
        assert(text@.subrange(start as int, len as int) =~= digits);
        assert(forall|k: int| 0 <= k < digits.len() ==> is_digit(#[trigger] digits[k])) by {
            assert forall|k: int| 0 <= k < digits.len() implies is_digit(#[trigger] digits[k]) by {
                assert(digits[k] == text@[start + k]);
            }
        }
    }
    if overflow {
        None
    } else {
        Some(value as u32)
    }
}

/// Whether `text` begins with `prefix`.
fn starts_with(text: &str, prefix: &str) -> (r: bool)
    ensures
        r == (text@.len() >= prefix@.len() && text@.subrange(0, prefix@.len() as int) == prefix@),
{
    let len = text.unicode_len();
    let plen = prefix.unicode_len();
    if len < plen {
        return false;
    }
    let head = String::from_str(text.substring_char(0, plen));
    let wanted = String::from_str(prefix);
    head == wanted
}

/// Text id of a screen source: `monitor:<id>` or `window:<id>`.
pub fn screen_source_id(source: ScreenSource) -> (r: String)
    ensures
        r@ == source_id_text(source),
{
    match source {
        ScreenSource::Monitor(id) => {
            let text = String::from_str("monitor:");
            let digits = decimal_text(id);
            text.concat(digits.as_str())
        },
        ScreenSource::Window(id) => {
            let text = String::from_str("window:");
            let digits = decimal_text(id);
            text.concat(digits.as_str())
        },
    }
}

/// The screen source named by a text id; the error says what is wrong with it.
pub fn parse_screen_source(source_id: &str) -> (r: Result<ScreenSource, String>)
    ensures
        match r {
            Ok(source) => parse_source_spec(source_id@) == Ok::<ScreenSource, Seq<char>>(source),
            Err(message) => parse_source_spec(source_id@) == Err::<ScreenSource, Seq<char>>(message@),
        },
{
    let len = source_id.unicode_len();
    proof {
        reveal_strlit("monitor:");
        reveal_strlit("window:");
    }
    if starts_with(source_id, "monitor:") {
        match parse_u32(source_id.substring_char(8, len)) {
            Some(id) => Ok(ScreenSource::Monitor(id)),
            None => Err(String::from_str("Некорректный id монитора")),
        }
    } else if starts_with(source_id, "window:") {
        match parse_u32(source_id.substring_char(7, len)) {
            Some(id) => Ok(ScreenSource::Window(id)),
            None => Err(String::from_str("Некорректный id окна")),
        }
    } else {
        Err(String::from_str("Неизвестный источник экрана"))
    }
}

/// What the user is offered for a monitor or a window.
pub fn screen_source_info(source: ScreenSource, label: String, width: u32, height: u32) -> (r:
    ScreenSourceInfo)
    ensures
        r.id@ == source_id_text(source),
        r.label == label,
        r.width == width,
        r.height == height,
        r.kind@ == match source {
            ScreenSource::Monitor(_) => "monitor"@,
            ScreenSource::Window(_) => "window"@,
        },
{
    let kind = match source {
        ScreenSource::Monitor(_) => String::from_str("monitor"),
        ScreenSource::Window(_) => String::from_str("window"),
    };
    ScreenSourceInfo { id: screen_source_id(source), label, width, height, kind }
}

/// Whether `needle` occurs in `hay`.
fn text_contains(hay: &str, needle: &str) -> (r: bool)
    ensures
        r == contains_text(hay@, needle@),
{
    let len = hay.unicode_len();
    let nlen = needle.unicode_len();
    let wanted = String::from_str(needle);
    if nlen > len {
        proof {
            assert forall|i: int|
                0 <= i && i + needle@.len() <= hay@.len() implies #[trigger] hay@.subrange(
                i,
                i + needle@.len(),
            ) != needle@ by {}
        }
        return false;
    }
    let last = len - nlen;
    let mut i: usize = 0;
    loop
        invariant
            len == hay@.len(),
            nlen == needle@.len(),
            wanted@ == needle@,
            nlen <= len,
            last == len - nlen,
            i <= last,
            forall|k: int| 0 <= k < i ==> #[trigger] hay@.subrange(k, k + nlen) != needle@,
        decreases last - i,
    {
        let window = String::from_str(hay.substring_char(i, i + nlen));
        if window == wanted {
            return true;
        }
        if i == last {
            return false;
        }
        i = i + 1;
    }
}

/// What the user is offered for the camera found at position `index`.
pub fn camera_device_info(index: usize, name: String, description: String) -> (r: CameraDeviceInfo)
    ensures
        r.index == index as u32,
        r.name == name,
        r.description == description,
        r.is_probably_obs_virtual_camera == contains_text(lowercase(name@), "obs"@),
{
    let lower = to_lowercase(name.as_str());
    let is_obs = text_contains(lower.as_str(), "obs");
    CameraDeviceInfo {
        index: index as u32,
        name,
        description,
        is_probably_obs_virtual_camera: is_obs,
    }
}

proof fn lemma_digit_chars()
    ensures
        forall|k: int| 0 <= k < 10 ==> #[trigger] digit_chars()[k] as int == '0' as int + k,
{
    assert(digit_chars()[0] as int == '0' as int + 0);
    assert(digit_chars()[1] as int == '0' as int + 1);
    assert(digit_chars()[2] as int == '0' as int + 2);
    assert(digit_chars()[3] as int == '0' as int + 3);
    assert(digit_chars()[4] as int == '0' as int + 4);
    assert(digit_chars()[5] as int == '0' as int + 5);
    assert(digit_chars()[6] as int == '0' as int + 6);
    assert(digit_chars()[7] as int == '0' as int + 7);
    assert(digit_chars()[8] as int == '0' as int + 8);
    assert(digit_chars()[9] as int == '0' as int + 9);
}

proof fn lemma_decimal_digits(n: nat)
    ensures
        decimal(n).len() > 0,
        forall|i: int| 0 <= i < decimal(n).len() ==> is_digit(#[trigger] decimal(n)[i]),
        digits_value(decimal(n)) == n,
    decreases n,
{
    lemma_digit_chars();
    if n >= 10 {
        lemma_decimal_digits(n / 10);
        let d = decimal(n);
        assert(d.drop_last() =~= decimal(n / 10));
        assert(d.last() as int - '0' as int == n % 10);
        assert(n == (n / 10) * 10 + n % 10);
    } else {
        let d = decimal(n);
        assert(d.drop_last() =~= Seq::<char>::empty());
        assert(d.last() == digit_chars()[n as int]);
        assert(digit_chars()[n as int] as int == '0' as int + n);
        assert(digits_value(d) == digits_value(d.drop_last()) * 10 + (d.last() as int - '0' as int));
    }
}

/// Every screen source id that the library writes reads back as the same
/// source.
pub proof fn law_source_id_round_trip(source: ScreenSource)
    ensures
        parse_source_spec(source_id_text(source)) == Ok::<ScreenSource, Seq<char>>(source),
{
    reveal_strlit("monitor:");
    reveal_strlit("window:");
    match source {
        ScreenSource::Monitor(id) => {
            let d = decimal(id as nat);
            lemma_decimal_digits(id as nat);
            let s = "monitor:"@ + d;
            assert(s.subrange(0, 8) =~= "monitor:"@);
            assert(s.subrange(8, s.len() as int) =~= d);
            assert(is_digit(d[0]));
        },
        ScreenSource::Window(id) => {
            let d = decimal(id as nat);
            lemma_decimal_digits(id as nat);
            let s = "window:"@ + d;
            assert(s[0] == 'w');
            assert(s.subrange(0, 8)[0] == 'w');
            assert(s.subrange(0, 7) =~= "window:"@);
            assert(s.subrange(7, s.len() as int) =~= d);
            assert(is_digit(d[0]));
        },
    }
}

} // verus!

//! XML documents as the event stream that `quick_xml` reads from them, and
//! the decimal integers written in their attributes.
use vstd::prelude::*;

use vstd::string::StrSliceExecFns;

use quick_xml::events::BytesStart;
use quick_xml::events::Event::{Empty, End, Eof, Start, Text};
use quick_xml::Reader;

verus! {

/// One event of an XML document: an opening tag with its attributes (raw
/// name and value bytes, in document order), a self-closing tag, a closing
/// tag, a run of text (raw bytes), or anything else.
#[derive(Debug)]
pub enum XmlEvent {
    Start(Vec<u8>, Vec<(Vec<u8>, Vec<u8>)>),
    Empty(Vec<u8>, Vec<(Vec<u8>, Vec<u8>)>),
    End(Vec<u8>),
    Text(Vec<u8>),
    Other,
}

pub enum SpecXmlEvent {
    Start(Seq<u8>, Seq<(Seq<u8>, Seq<u8>)>),
    Empty(Seq<u8>, Seq<(Seq<u8>, Seq<u8>)>),
    End(Seq<u8>),
    Text(Seq<u8>),
    Other,
}

pub open spec fn view_attrs(a: Seq<(Vec<u8>, Vec<u8>)>) -> Seq<(Seq<u8>, Seq<u8>)> {
    a.map_values(|p: (Vec<u8>, Vec<u8>)| (p.0@, p.1@))
}

pub open spec fn view_event(e: XmlEvent) -> SpecXmlEvent {
    match e {
        XmlEvent::Start(n, a) => SpecXmlEvent::Start(n@, view_attrs(a@)),
        XmlEvent::Empty(n, a) => SpecXmlEvent::Empty(n@, view_attrs(a@)),
        XmlEvent::End(n) => SpecXmlEvent::End(n@),
        XmlEvent::Text(t) => SpecXmlEvent::Text(t@),
        XmlEvent::Other => SpecXmlEvent::Other,
    }
}

pub open spec fn view_events(v: Seq<XmlEvent>) -> Seq<SpecXmlEvent> {
    v.map_values(|e: XmlEvent| view_event(e))
}

/// The events `quick_xml::Reader::from_str` reads from a document up to its
/// end, or `None` when it reports an error first.
pub uninterp spec fn xml_events(xml: Seq<char>) -> Option<Seq<SpecXmlEvent>>;

/// Reads every event of `xml` with a `quick_xml::Reader` in its default
/// configuration (attributes that fail to parse are skipped). The events
/// depend on the text alone.
#[verifier::external_body]
pub(crate) fn read_xml_events(xml: &str) -> (r: Option<Vec<XmlEvent>>)
    ensures
        match r {
            Some(v) => xml_events(xml@) == Some(view_events(v@)),
            None => xml_events(xml@) is None,
        },
{
    let mut r = Reader::from_str(xml);
    let mut out = Vec::new();
    let tag = |t: BytesStart, f: fn(_, _) -> XmlEvent| f(t.name().0.to_vec(), t.attributes().flatten().map(|a| (a.key.0.to_vec(), a.value.to_vec())).collect());
    loop {
        out.push(match r.read_event().ok()? {
            Start(t) => tag(t, XmlEvent::Start),
            Empty(t) => tag(t, XmlEvent::Empty),
            End(t) => XmlEvent::End(t.to_vec()),
            Text(t) => XmlEvent::Text(t.to_vec()),
            Eof => return Some(out),
            _ => XmlEvent::Other,
        });
    }
}

/// What `quick_xml`'s `Attribute::unescape_value` makes of a raw attribute
/// value: its UTF-8 text with the XML entities resolved.
pub uninterp spec fn xml_unescaped(raw: Seq<u8>) -> Option<Seq<char>>;

/// Calls `Attribute::unescape_value` on a raw value; `None` when the value is
/// not UTF-8 or holds an entity it cannot resolve.
#[verifier::external_body]
pub(crate) fn unescape_attr(raw: &[u8]) -> (r: Option<String>)
    ensures
        match r {
            Some(s) => xml_unescaped(raw@) == Some(s@),
            None => xml_unescaped(raw@) is None,
        },
{
    let attribute = quick_xml::events::attributes::Attribute::from((&b""[..], raw));
    attribute.unescape_value().ok().map(|v| v.into_owned())
}

// ---------------------------------------------------------------------------
// Decimal integers
// ---------------------------------------------------------------------------
pub open spec fn is_digit(c: char) -> bool {
    '0' <= c <= '9'
}

/// The value of a run of decimal digits.
pub open spec fn digits_value(s: Seq<char>) -> int
    decreases s.len(),
{
    if s.len() == 0 {
        0
    } else {
        10 * digits_value(s.drop_last()) + (s.last() as int - '0' as int)
    }
}

pub open spec fn all_digits(s: Seq<char>) -> bool {
    forall|i: int| 0 <= i < s.len() ==> is_digit(#[trigger] s[i])
}

/// A decimal integer as `str::parse` reads it for an integer type whose
/// values run from `lo` to `hi`: an optional sign (a `-` only where `lo` is
/// negative), then at least one digit, and nothing else.
pub open spec fn spec_parse_int(s: Seq<char>, lo: int, hi: int) -> Option<int> {
    let neg = s.len() > 0 && s[0] == '-';
    let signed = s.len() > 0 && (s[0] == '-' || s[0] == '+');
    let ds = if signed {
        s.drop_first()
    } else {
        s
    };
    if ds.len() == 0 || !all_digits(ds) || (neg && lo >= 0) {
        None
    } else {
        let v = if neg {
            -digits_value(ds)
        } else {
            digits_value(ds)
        };
        if lo <= v <= hi {
            Some(v)
        } else {
            None
        }
    }
}

proof fn lemma_digits_nonneg(s: Seq<char>)
    requires
        all_digits(s),
    ensures
        digits_value(s) >= 0,
    decreases s.len(),
{
    if s.len() > 0 {
        assert(is_digit(s[s.len() - 1]));
        lemma_digits_nonneg(s.drop_last());
    }
}

/// The magnitude and sign of a decimal integer, when its magnitude is at
/// most `bound`; `Err(true)` when the text is no integer, `Err(false)` when
/// the magnitude exceeds the bound.
fn parse_magnitude(s: &str, bound: u64) -> (r: Result<(bool, u64), bool>)
    requires
        bound >= 9,
    ensures
        ({
            let st = s@;
            let neg = st.len() > 0 && st[0] == '-';
            let signed = st.len() > 0 && (st[0] == '-' || st[0] == '+');
            let ds = if signed {
                st.drop_first()
            } else {
                st
            };
            match r {
                Ok((n, m)) => ds.len() > 0 && all_digits(ds) && n == neg && m == digits_value(ds) && m
                    <= bound,
                Err(true) => ds.len() == 0 || !all_digits(ds),
                Err(false) => ds.len() > 0 && all_digits(ds) && digits_value(ds) > bound,
            }
        }),
{
    let n: usize = s.unicode_len();
    let ghost st = s@;
    let mut i: usize = 0;
    let mut neg: bool = false;
    if n > 0 {
        let c: char = s.get_char(0);
        if c == '-' || c == '+' {
            neg = c == '-';
            i = 1;
        }
    }
    let ghost signed = st.len() > 0 && (st[0] == '-' || st[0] == '+');
    let ghost ds = if signed {
        st.drop_first()
    } else {
        st
    };
    if i == n {
        return Err(true);
    }
    let start: usize = i;
    let mut m: u64 = 0;
    let mut over: bool = false;
    proof {
        assert(ds =~= st.subrange(start as int, n as int));
        assert(ds.subrange(0, 0) =~= Seq::<char>::empty());
    }
    while i < n
        invariant
            bound >= 9,
            start <= i <= n,
            n == st.len(),
            st == s@,
            ds == st.subrange(start as int, n as int),
            ds == (if st.len() > 0 && (st[0] == '-' || st[0] == '+') {
                st.drop_first()
            } else {
                st
            }),
            all_digits(ds.subrange(0, i - start)),
            !over ==> m == digits_value(ds.subrange(0, i - start)) && m <= bound,
            over ==> digits_value(ds.subrange(0, i - start)) > bound,
        decreases n - i,
    {
        let c: char = s.get_char(i);
        let ghost pre = ds.subrange(0, i - start);
        let ghost next = ds.subrange(0, i + 1 - start);
        proof {
            assert(next.drop_last() =~= pre);
            assert(next.last() == c);
            lemma_digits_nonneg(pre);
        }
        if !('0' <= c && c <= '9') {
            proof {
                assert(ds[i - start] == st[i as int]);
                assert(ds[i - start] == c);
                assert(!is_digit(ds[i - start]));
                assert(!all_digits(ds));
            }
            return Err(true);
        }
        let d: u64 = (c as u32 - '0' as u32) as u64;
        if !over {
            if m > (bound - d) / 10 {
                over = true;
                assert(10 * m + d > bound) by (nonlinear_arith)
                    requires
                        m > (bound - d) / 10,
                        d <= 9,
                        d <= bound,
                ;
            } else {
                assert(10 * m + d <= bound) by (nonlinear_arith)
                    requires
                        m <= (bound - d) / 10,
                        d <= 9,
                ;
                m = 10 * m + d;
            }
        } else {
            assert(digits_value(next) > bound) by (nonlinear_arith)
                requires
                    digits_value(pre) > bound,
                    digits_value(next) == 10 * digits_value(pre) + d,
                    d >= 0,
            ;
        }
        proof {
            assert forall|k: int| 0 <= k < next.len() implies is_digit(#[trigger] next[k]) by {
                if k < pre.len() {
                    assert(next[k] == pre[k]);
                }
            }
        }
        i += 1;
    }
    proof {
        assert(ds.subrange(0, n - start) =~= ds);
    }
    if over {
        Err(false)
    } else {
        Ok((neg, m))
    }
}

/// `s.parse::<u64>()`.
pub fn parse_u64(s: &str) -> (r: Option<u64>)
    ensures
        match spec_parse_int(s@, 0, u64::MAX as int) {
            Some(v) => r == Some(v as u64),
            None => r is None,
        },
{
    match parse_magnitude(s, u64::MAX) {
        Ok((neg, m)) => {
            if neg {
                None
            } else {
                Some(m)
            }
        },
        Err(_) => None,
    }
}

/// `s.parse::<i64>()`.
pub fn parse_i64(s: &str) -> (r: Option<i64>)
    ensures
        match spec_parse_int(s@, i64::MIN as int, i64::MAX as int) {
            Some(v) => r == Some(v as i64),
            None => r is None,
        },
{
    match parse_magnitude(s, 0x8000_0000_0000_0000) {
        Ok((neg, m)) => {
            if neg {
                if m == 0x8000_0000_0000_0000 {
                    Some(i64::MIN)
                } else {
                    Some(-(m as i64))
                }
            } else if m <= i64::MAX as u64 {
                Some(m as i64)
            } else {
                None
            }
        },
        Err(_) => None,
    }
}

/// `s.parse::<i32>()`.
pub fn parse_i32(s: &str) -> (r: Option<i32>)
    ensures
        match spec_parse_int(s@, i32::MIN as int, i32::MAX as int) {
            Some(v) => r == Some(v as i32),
            None => r is None,
        },
{
    match parse_magnitude(s, 0x8000_0000) {
        Ok((neg, m)) => {
            if neg {
                Some((0 - (m as i64)) as i32)
            } else if m <= i32::MAX as u64 {
                Some(m as i32)
            } else {
                None
            }
        },
        Err(_) => None,
    }
}

/// `s.parse::<u32>()`.
pub fn parse_u32(s: &str) -> (r: Option<u32>)
    ensures
        match spec_parse_int(s@, 0, u32::MAX as int) {
            Some(v) => r == Some(v as u32),
            None => r is None,
        },
{
    match parse_magnitude(s, u32::MAX as u64) {
        Ok((neg, m)) => {
            if neg {
                None
            } else {
                Some(m as u32)
            }
        },
        Err(_) => None,
    }
}

} // verus!

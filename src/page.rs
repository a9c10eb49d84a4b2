//! The index page of the front end, rendered as HTML or as JSON.
use vstd::prelude::*;

use crate::octets::push_all;

verus! {

/// `b` as HTML text: `&`, `<`, `>`, `"` and `'` become character references.
pub open spec fn escape_byte(b: u8) -> Seq<u8> {
    if b == 38 {
        seq![38u8, 97, 109, 112, 59]
    } else if b == 60 {
        seq![38u8, 108, 116, 59]
    } else if b == 62 {
        seq![38u8, 103, 116, 59]
    } else if b == 34 {
        seq![38u8, 113, 117, 111, 116, 59]
    } else if b == 39 {
        seq![38u8, 35, 51, 57, 59]
    } else {
        seq![b]
    }
}

/// `s` as HTML text.
pub open spec fn escape_html(s: Seq<u8>) -> Seq<u8>
    decreases s.len(),
{
    if s.len() == 0 {
        Seq::empty()
    } else {
        escape_html(s.drop_last()) + escape_byte(s.last())
    }
}

/// Appends `s` as HTML text.
pub fn push_escaped(out: &mut Vec<u8>, s: &[u8])
    ensures
        final(out)@ == old(out)@ + escape_html(s@),
{
    let ghost start = out@;
    let mut i: usize = 0;
    while i < s.len()
        invariant
            i <= s@.len(),
            out@ == start + escape_html(s@.subrange(0, i as int)),
        decreases s@.len() - i,
    {
        let b = s[i];
        let ghost before = out@;
        if b == 38 {
            push_all(out, &[38u8, 97, 109, 112, 59]);
        } else if b == 60 {
            push_all(out, &[38u8, 108, 116, 59]);
        } else if b == 62 {
            push_all(out, &[38u8, 103, 116, 59]);
        } else if b == 34 {
            push_all(out, &[38u8, 113, 117, 111, 116, 59]);
        } else if b == 39 {
            push_all(out, &[38u8, 35, 51, 57, 59]);
        } else {
            out.push(b);
        }
        proof {
            let sub = s@.subrange(0, i + 1);
            assert(sub.drop_last() =~= s@.subrange(0, i as int));
            assert(sub.last() == b);
            assert(out@ =~= before + escape_byte(b));
        }
        i = i + 1;
    }
    assert(s@.subrange(0, i as int) =~= s@);
}

/// Opening of the HTML page, up to the title.
pub open spec fn html_head() -> Seq<u8> {
    seq![60u8, 33, 68, 79, 67, 84, 89, 80, 69, 32, 104, 116, 109, 108, 62, 60, 104, 116, 109, 108, 62, 60, 104, 101, 97, 100, 62, 60, 116, 105, 116, 108, 101, 62]
}

/// Between the title and the messages.
pub open spec fn html_body() -> Seq<u8> {
    seq![60u8, 47, 116, 105, 116, 108, 101, 62, 60, 47, 104, 101, 97, 100, 62, 60, 98, 111, 100, 121, 62, 60, 117, 108, 62]
}

/// Opening of a list item.
pub open spec fn li_open() -> Seq<u8> {
    seq![60u8, 108, 105, 62]
}

/// Closing of a list item.
pub open spec fn li_close() -> Seq<u8> {
    seq![60u8, 47, 108, 105, 62]
}

/// Closing of the HTML page.
pub open spec fn html_tail() -> Seq<u8> {
    seq![60u8, 47, 117, 108, 62, 60, 47, 98, 111, 100, 121, 62, 60, 47, 104, 116, 109, 108, 62]
}

/// Each message as a list item, in order.
pub open spec fn html_items(messages: Seq<Seq<u8>>) -> Seq<u8>
    decreases messages.len(),
{
    if messages.len() == 0 {
        Seq::empty()
    } else {
        html_items(messages.drop_last()) + li_open() + escape_html(messages.last()) + li_close()
    }
}

/// The HTML index page: the title, then the messages as a list.
pub open spec fn html_page(title: Seq<u8>, messages: Seq<Seq<u8>>) -> Seq<u8> {
    html_head() + escape_html(title) + html_body() + html_items(messages) + html_tail()
}

/// The HTML index page.
pub struct IndexHtmlTemplate {
    pub messages: Vec<Vec<u8>>,
    pub title: Vec<u8>,
}

/// The views of a list of messages.
pub open spec fn messages_view(ms: Seq<Vec<u8>>) -> Seq<Seq<u8>> {
    ms.map_values(|m: Vec<u8>| m@)
}

impl IndexHtmlTemplate {
    /// Appends the page to `buffer`.
    pub fn render_once_to(&self, buffer: &mut Vec<u8>)
        ensures
            final(buffer)@ == old(buffer)@ + html_page(self.title@, messages_view(self.messages@)),
    {
        let ghost start = buffer@;
        push_all(buffer, &[60u8, 33, 68, 79, 67, 84, 89, 80, 69, 32, 104, 116, 109, 108, 62, 60, 104, 116, 109, 108, 62, 60, 104, 101, 97, 100, 62, 60, 116, 105, 116, 108, 101, 62]);
        push_escaped(buffer, self.title.as_slice());
        push_all(buffer, &[60u8, 47, 116, 105, 116, 108, 101, 62, 60, 47, 104, 101, 97, 100, 62, 60, 98, 111, 100, 121, 62, 60, 117, 108, 62]);
        let ghost ms = messages_view(self.messages@);
        let ghost mid = buffer@;
        let mut i: usize = 0;
        while i < self.messages.len()
            invariant
                i <= self.messages@.len(),
                ms == messages_view(self.messages@),
                buffer@ == mid + html_items(ms.subrange(0, i as int)),
            decreases self.messages@.len() - i,
        {
            let ghost before = buffer@;
            push_all(buffer, &[60u8, 108, 105, 62]);
            push_escaped(buffer, self.messages[i].as_slice());
            push_all(buffer, &[60u8, 47, 108, 105, 62]);
            proof {
                let sub = ms.subrange(0, i + 1);
                assert(sub.drop_last() =~= ms.subrange(0, i as int));
                assert(sub.last() == self.messages@[i as int]@);
                assert(buffer@ =~= mid + html_items(sub));
            }
            i = i + 1;
        }
        assert(ms.subrange(0, i as int) =~= ms);
        push_all(buffer, &[60u8, 47, 117, 108, 62, 60, 47, 98, 111, 100, 121, 62, 60, 47, 104, 116, 109, 108, 62]);
        assert(buffer@ =~= start + html_page(self.title@, ms));
    }
}

/// `b` inside a JSON string: a quote or a backslash gets a backslash, a control byte becomes
/// a `\u00XX` escape.
pub open spec fn json_escape_byte(b: u8) -> Seq<u8> {
    if b == 34 {
        seq![92u8, 34]
    } else if b == 92 {
        seq![92u8, 92]
    } else if b < 32 {
        seq![92u8, 117, 48, 48, hex_digit(b / 16), hex_digit(b % 16)]
    } else {
        seq![b]
    }
}

/// The lower-case hexadecimal digit of `d` < 16.
pub open spec fn hex_digit(d: u8) -> u8 {
    if d < 10 {
        (48 + d) as u8
    } else {
        (87 + d) as u8
    }
}

/// `s` inside a JSON string.
pub open spec fn json_escape(s: Seq<u8>) -> Seq<u8>
    decreases s.len(),
{
    if s.len() == 0 {
        Seq::empty()
    } else {
        json_escape(s.drop_last()) + json_escape_byte(s.last())
    }
}

/// The decimal digits of `n`.
pub open spec fn decimal(n: u8) -> Seq<u8> {
    if n < 10 {
        seq![(48 + n) as u8]
    } else if n < 100 {
        seq![(48 + n / 10) as u8, (48 + n % 10) as u8]
    } else {
        seq![(48 + n / 100) as u8, (48 + (n / 10) % 10) as u8, (48 + n % 10) as u8]
    }
}

/// One message of the JSON index page.
pub struct ComplexMessage {
    pub text: Vec<u8>,
    pub other: u8,
}

/// A message as a JSON object: `{"text":"…","other":N}`.
pub open spec fn message_json(text: Seq<u8>, other: u8) -> Seq<u8> {
    seq![123u8, 34, 116, 101, 120, 116, 34, 58, 34] + json_escape(text) + seq![34u8, 44, 34, 111, 116, 104, 101, 114, 34, 58] + decimal(other) + seq![125u8]
}

/// The messages as JSON objects separated by commas.
pub open spec fn json_items(ms: Seq<(Seq<u8>, u8)>) -> Seq<u8>
    decreases ms.len(),
{
    if ms.len() == 0 {
        Seq::empty()
    } else if ms.len() == 1 {
        message_json(ms[0].0, ms[0].1)
    } else {
        json_items(ms.drop_last()) + seq![44u8] + message_json(ms.last().0, ms.last().1)
    }
}

/// The JSON index page: an array of the messages.
pub open spec fn json_page(ms: Seq<(Seq<u8>, u8)>) -> Seq<u8> {
    seq![91u8] + json_items(ms) + seq![93u8]
}

/// The JSON index page.
pub struct IndexJsonTemplate {
    pub messages: Vec<ComplexMessage>,
}

/// The views of a list of JSON messages.
pub open spec fn complex_view(ms: Seq<ComplexMessage>) -> Seq<(Seq<u8>, u8)> {
    ms.map_values(|m: ComplexMessage| (m.text@, m.other))
}

/// Appends `s` inside a JSON string.
fn push_json_escaped(out: &mut Vec<u8>, s: &[u8])
    ensures
        final(out)@ == old(out)@ + json_escape(s@),
{
    let ghost start = out@;
    let mut i: usize = 0;
    while i < s.len()
        invariant
            i <= s@.len(),
            out@ == start + json_escape(s@.subrange(0, i as int)),
        decreases s@.len() - i,
    {
        let b = s[i];
        let ghost before = out@;
        if b == 34 {
            push_all(out, &[92u8, 34]);
        } else if b == 92 {
            push_all(out, &[92u8, 92]);
        } else if b < 32 {
            let hi = b / 16;
            let lo = b % 16;
            let h = if hi < 10 { 48 + hi } else { 87 + hi };
            let l = if lo < 10 { 48 + lo } else { 87 + lo };
            push_all(out, &[92u8, 117, 48, 48]);
            out.push(h);
            out.push(l);
        } else {
            out.push(b);
        }
        proof {
            let sub = s@.subrange(0, i + 1);
            assert(sub.drop_last() =~= s@.subrange(0, i as int));
            assert(sub.last() == b);
            assert(out@ =~= before + json_escape_byte(b));
        }
        i = i + 1;
    }
    assert(s@.subrange(0, i as int) =~= s@);
}

/// Appends the decimal digits of `n`.
fn push_decimal(out: &mut Vec<u8>, n: u8)
    ensures
        final(out)@ == old(out)@ + decimal(n),
{
    let ghost start = out@;
    if n < 10 {
        out.push(48 + n);
    } else if n < 100 {
        out.push(48 + n / 10);
        out.push(48 + n % 10);
    } else {
        out.push(48 + n / 100);
        out.push(48 + (n / 10) % 10);
        out.push(48 + n % 10);
    }
    assert(out@ =~= start + decimal(n));
}

impl IndexJsonTemplate {
    /// Appends the page to `buffer`.
    pub fn render_once_to(&self, buffer: &mut Vec<u8>)
        ensures
            final(buffer)@ == old(buffer)@ + json_page(complex_view(self.messages@)),
    {
        let ghost start = buffer@;
        let ghost ms = complex_view(self.messages@);
        buffer.push(91u8);
        let ghost mid = buffer@;
        let mut i: usize = 0;
        while i < self.messages.len()
            invariant
                i <= self.messages@.len(),
                ms == complex_view(self.messages@),
                buffer@ == mid + json_items(ms.subrange(0, i as int)),
            decreases self.messages@.len() - i,
        {
            let ghost before = buffer@;
            if i > 0 {
                buffer.push(44u8);
            }
            let m = &self.messages[i];
            push_all(buffer, &[123u8, 34, 116, 101, 120, 116, 34, 58, 34]);
            push_json_escaped(buffer, m.text.as_slice());
            push_all(buffer, &[34u8, 44, 34, 111, 116, 104, 101, 114, 34, 58]);
            push_decimal(buffer, m.other);
            buffer.push(125u8);
            proof {
                let sub = ms.subrange(0, i + 1);
                assert(sub.drop_last() =~= ms.subrange(0, i as int));
                assert(sub.last() == (m.text@, m.other));
                if i == 0 {
                    assert(ms.subrange(0, 0) =~= Seq::<(Seq<u8>, u8)>::empty());
                    assert(buffer@ =~= mid + json_items(sub));
                } else {
                    assert(buffer@ =~= mid + json_items(sub));
                }
            }
            i = i + 1;
        }
        assert(ms.subrange(0, i as int) =~= ms);
        buffer.push(93u8);
        assert(buffer@ =~= start + json_page(ms));
    }
}


} // verus!

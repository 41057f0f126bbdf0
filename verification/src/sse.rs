//! A minimal reader of server-sent events: `data:` lines carry the payload, a blank line ends an
//! event, `:` lines are keepalives.

use vstd::prelude::*;
use vstd::utf8::{decode_utf8, encode_utf8, encode_utf8_decode_utf8, encode_utf8_valid_utf8, valid_utf8};

use crate::policy::texts;
use crate::text::{from_chars, to_chars, trim_end, trimmed_end};

verus! {

/// The text that bytes stand for, where what is not UTF-8 is replaced.
pub uninterp spec fn lossy_text(bytes: Seq<u8>) -> Seq<char>;

/// `String::from_utf8_lossy` of std: the text that the bytes encode, where they are UTF-8. What it
/// puts in the place of other bytes is left to that function.
#[verifier::external_body]
fn from_utf8_lossy(bytes: &[u8]) -> (r: String)
    ensures
        r@ == lossy_text(bytes@),
        valid_utf8(bytes@) ==> r@ == decode_utf8(bytes@),
{
    String::from_utf8_lossy(bytes).into_owned()
}

/// White space, as Unicode has it.
pub open spec fn white_space(c: char) -> bool {
    let n = c as u32;
    ||| 0x9 <= n <= 0xd
    ||| n == 0x20
    ||| n == 0x85
    ||| n == 0xa0
    ||| n == 0x1680
    ||| 0x2000 <= n <= 0x200a
    ||| n == 0x2028
    ||| n == 0x2029
    ||| n == 0x202f
    ||| n == 0x205f
    ||| n == 0x3000
}

/// Whether the character is white space.
pub fn is_white_space(c: char) -> (r: bool)
    ensures
        r == white_space(c),
{
    let n: u32 = c as u32;
    (0x9 <= n && n <= 0xd) || n == 0x20 || n == 0x85 || n == 0xa0 || n == 0x1680 || (0x2000 <= n
        && n <= 0x200a) || n == 0x2028 || n == 0x2029 || n == 0x202f || n == 0x205f || n == 0x3000
}

/// A text without the white space at its start.
pub open spec fn trimmed_start(text: Seq<char>) -> Seq<char>
    decreases text.len(),
{
    if text.len() > 0 && white_space(text[0]) {
        trimmed_start(text.drop_first())
    } else {
        text
    }
}

/// What a line with payload starts with.
pub open spec fn data_tag() -> Seq<char> {
    seq!['d', 'a', 't', 'a', ':']
}

/// What has been read of a stream, and not handed out yet.
pub struct StreamView {
    /// The line that has not ended yet.
    pub line: Seq<char>,
    /// The payload of the event that has not ended yet.
    pub data: Seq<char>,
}

/// Nothing has been read.
pub open spec fn nothing_read() -> StreamView {
    StreamView { line: Seq::empty(), data: Seq::empty() }
}

/// What the end of the line makes of a stream, and the event that ends with it, if one does.
pub open spec fn line_ended(state: StreamView) -> (StreamView, Seq<Seq<char>>) {
    let line = trimmed_end(state.line, '\r');
    if data_tag().is_prefix_of(line) {
        (
            StreamView { line: Seq::empty(), data: state.data + trimmed_start(line.skip(5)) },
            Seq::empty(),
        )
    } else if line.len() == 0 && state.data.len() > 0 {
        (nothing_read(), seq![state.data])
    } else {
        (StreamView { line: Seq::empty(), data: state.data }, Seq::empty())
    }
}

/// What a character makes of a stream, and the event that ends with it, if one does.
pub open spec fn read_char(state: StreamView, c: char) -> (StreamView, Seq<Seq<char>>) {
    if c == '\n' {
        line_ended(state)
    } else {
        (StreamView { line: state.line.push(c), ..state }, Seq::empty())
    }
}

/// What a text makes of a stream, and the events that end in it.
pub open spec fn fed(state: StreamView, text: Seq<char>) -> (StreamView, Seq<Seq<char>>)
    decreases text.len(),
{
    if text.len() == 0 {
        (state, Seq::empty())
    } else {
        let (before, events) = fed(state, text.drop_last());
        let (after, more) = read_char(before, text.last());
        (after, events + more)
    }
}

/// A stream of events as it is read.
pub struct EventStream {
    line: Vec<char>,
    data: Vec<char>,
}

impl View for EventStream {
    type V = StreamView;

    closed spec fn view(&self) -> StreamView {
        StreamView { line: self.line@, data: self.data@ }
    }
}

fn starts_with_tag(line: &Vec<char>) -> (r: bool)
    ensures
        r == data_tag().is_prefix_of(line@),
{
    let r: bool = line.len() >= 5 && line[0] == 'd' && line[1] == 'a' && line[2] == 't' && line[3]
        == 'a' && line[4] == ':';
    proof {
        if r {
            assert(data_tag() =~= line@.subrange(0, 5));
        } else if data_tag().is_prefix_of(line@) {
            let tag = data_tag();
            assert(tag =~= line@.subrange(0, 5));
            assert(tag[0] == line@[0] && tag[1] == line@[1] && tag[2] == line@[2] && tag[3]
                == line@[3] && tag[4] == line@[4]);
        }
    }
    r
}

impl EventStream {
    /// A stream of which nothing has been read.
    pub fn new() -> (r: Self)
        ensures
            r@ == nothing_read(),
    {
        EventStream { line: Vec::new(), data: Vec::new() }
    }

    /// Ends the line. Hands out the event that ends with it, if one does.
    fn end_line(&mut self) -> (r: Option<String>)
        ensures
            ({
                let (after, events) = line_ended(old(self)@);
                &&& final(self)@ == after
                &&& match r {
                    Some(event) => events == seq![event@],
                    None => events == Seq::<Seq<char>>::empty(),
                }
            }),
    {
        let mut line: Vec<char> = Vec::new();
        std::mem::swap(&mut line, &mut self.line);
        trim_end(&mut line, '\r');
        if starts_with_tag(&line) {
            let ghost rest = line@.skip(5);
            let ghost before = self.data@;
            let mut at: usize = 5;
            assert(line@.skip(5) =~= rest);
            while at < line.len() && is_white_space(line[at])
                invariant
                    5 <= at <= line@.len(),
                    trimmed_start(line@.skip(at as int)) == trimmed_start(rest),
                decreases line@.len() - at,
            {
                assert(line@.skip(at as int).drop_first() =~= line@.skip(at + 1));
                at = at + 1;
            }
            let ghost payload = line@.skip(at as int);
            let ghost first = at as int;
            assert(payload == trimmed_start(rest));
            assert(self.data@ =~= before + payload.take(0));
            while at < line.len()
                invariant
                    5 <= first <= at <= line@.len(),
                    payload == line@.skip(first),
                    self.data@ == before + payload.take(at - first),
                    self.line@ == Seq::<char>::empty(),
                decreases line@.len() - at,
            {
                self.data.push(line[at]);
                assert(payload.take(at + 1 - first) =~= payload.take(at - first).push(
                    line@[at as int],
                ));
                assert(self.data@ =~= before + payload.take(at + 1 - first));
                at = at + 1;
            }
            assert(payload.take(at - first) =~= payload);
            None
        } else if line.len() == 0 && self.data.len() > 0 {
            let event: String = from_chars(&self.data);
            self.data = Vec::new();
            Some(event)
        } else {
            None
        }
    }

    /// Reads a piece of text. Hands out the events that end in it.
    pub fn feed_text(&mut self, text: &str) -> (r: Vec<String>)
        ensures
            (final(self)@, texts(r@)) == fed(old(self)@, text@),
    {
        let chars: Vec<char> = to_chars(text);
        let ghost start = self@;
        let mut events: Vec<String> = Vec::new();
        let mut i: usize = 0;
        assert(texts(events@) =~= fed(start, chars@.take(0)).1);
        while i < chars.len()
            invariant
                i <= chars@.len(),
                self@ == fed(start, chars@.take(i as int)).0,
                texts(events@) == fed(start, chars@.take(i as int)).1,
            decreases chars@.len() - i,
        {
            let c: char = chars[i];
            let ghost was = texts(events@);
            proof {
                assert(chars@.take(i + 1).drop_last() =~= chars@.take(i as int));
                assert(chars@.take(i + 1).last() == c);
            }
            if c == '\n' {
                if let Some(event) = self.end_line() {
                    events.push(event);
                    assert(texts(events@) =~= was + seq![event@]);
                } else {
                    assert(was + Seq::<Seq<char>>::empty() =~= was);
                }
            } else {
                self.line.push(c);
                assert(was + Seq::<Seq<char>>::empty() =~= was);
            }
            i = i + 1;
        }
        assert(chars@.take(chars@.len() as int) =~= chars@);
        events
    }

    /// Reads a chunk of the stream. Hands out the events that end in it.
    pub fn feed(&mut self, chunk: &[u8]) -> (r: Vec<String>)
        ensures
            (final(self)@, texts(r@)) == fed(old(self)@, lossy_text(chunk@)),
            valid_utf8(chunk@) ==> (final(self)@, texts(r@)) == fed(
                old(self)@,
                decode_utf8(chunk@),
            ),
    {
        let text: String = from_utf8_lossy(chunk);
        self.feed_text(text.as_str())
    }
}

/// Reading a text in two pieces gives the same events, and leaves the same, as reading it in one.
pub proof fn law_two_pieces(state: StreamView, a: Seq<char>, b: Seq<char>)
    ensures
        fed(state, a + b).0 == fed(fed(state, a).0, b).0,
        fed(state, a + b).1 == fed(state, a).1 + fed(fed(state, a).0, b).1,
    decreases b.len(),
{
    if b.len() == 0 {
        assert(a + b =~= a);
        assert(fed(state, a).1 + Seq::<Seq<char>>::empty() =~= fed(state, a).1);
    } else {
        law_two_pieces(state, a, b.drop_last());
        assert((a + b).drop_last() =~= a + b.drop_last());
        assert((a + b).last() == b.last());
        let (mid, first) = fed(state, a);
        let (before, second) = fed(mid, b.drop_last());
        let more = read_char(before, b.last()).1;
        assert(first + second + more =~= first + (second + more));
    }
}

/// What pieces of text, read one after the other, make of a stream, and the events that end in them.
pub open spec fn fed_pieces(state: StreamView, pieces: Seq<Seq<char>>) -> (
    StreamView,
    Seq<Seq<char>>,
)
    decreases pieces.len(),
{
    if pieces.len() == 0 {
        (state, Seq::empty())
    } else {
        let (before, events) = fed_pieces(state, pieces.drop_last());
        let (after, more) = fed(before, pieces.last());
        (after, events + more)
    }
}

/// It does not matter how a text is cut into pieces, nor into how many: reading them one after the
/// other gives the same events, and leaves the same, as reading it in one. (Of bytes this holds as
/// long as no character is cut.)
pub proof fn law_pieces_do_not_matter(state: StreamView, pieces: Seq<Seq<char>>)
    ensures
        fed_pieces(state, pieces) == fed(state, pieces.flatten()),
    decreases pieces.len(),
{
    if pieces.len() == 0 {
        assert(pieces.flatten() =~= Seq::<char>::empty());
    } else {
        let init = pieces.drop_last();
        law_pieces_do_not_matter(state, init);
        init.lemma_flatten_push(pieces.last());
        assert(init.push(pieces.last()) =~= pieces);
        law_two_pieces(state, init.flatten(), pieces.last());
    }
}

/// Whole characters that arrive in one chunk are read as they were written.
pub proof fn law_whole_characters_are_read_as_written(text: Seq<char>)
    ensures
        valid_utf8(encode_utf8(text)),
        decode_utf8(encode_utf8(text)) == text,
{
    encode_utf8_valid_utf8(text);
    encode_utf8_decode_utf8(text);
}

proof fn lemma_within_a_line(state: StreamView, text: Seq<char>)
    requires
        !text.contains('\n'),
    ensures
        fed(state, text) == (
            StreamView { line: state.line + text, ..state },
            Seq::<Seq<char>>::empty(),
        ),
    decreases text.len(),
{
    if text.len() == 0 {
        assert(state.line + text =~= state.line);
    } else {
        let init = text.drop_last();
        assert(!init.contains('\n')) by {
            if init.contains('\n') {
                let j = choose|j: int| 0 <= j < init.len() && init[j] == '\n';
                assert(text[j] == '\n');
            }
        }
        lemma_within_a_line(state, init);
        assert(text.last() != '\n') by {
            assert(text[text.len() - 1] == text.last());
        }
        assert((state.line + init).push(text.last()) =~= state.line + text);
        assert(Seq::<Seq<char>>::empty() + Seq::<Seq<char>>::empty() =~= Seq::<
            Seq<char>,
        >::empty());
    }
}

proof fn lemma_line(state: StreamView, line: Seq<char>)
    requires
        state.line.len() == 0,
        !line.contains('\n'),
    ensures
        fed(state, line.push('\n')) == line_ended(StreamView { line, ..state }),
{
    let text = line.push('\n');
    assert(text.drop_last() =~= line);
    lemma_within_a_line(state, line);
    assert(state.line + line =~= line);
    let events = line_ended(StreamView { line, ..state }).1;
    assert(Seq::<Seq<char>>::empty() + events =~= events);
}

/// How a line ends: with a line feed, or with a carriage return before it.
pub open spec fn line_end(crlf: bool) -> Seq<char> {
    if crlf {
        seq!['\r', '\n']
    } else {
        seq!['\n']
    }
}

/// An event as it is written: a line with the payload, and a blank line.
pub open spec fn event_text(payload: Seq<char>, crlf: bool) -> Seq<char> {
    data_tag() + seq![' '] + payload + line_end(crlf) + line_end(crlf)
}

/// A keepalive as it is written.
pub open spec fn keepalive_text(comment: Seq<char>, crlf: bool) -> Seq<char> {
    seq![':'] + comment + line_end(crlf)
}

/// The payload can be written as an event: it is one line, and neither starts with white space nor
/// ends with a carriage return.
pub open spec fn one_line(payload: Seq<char>) -> bool {
    &&& payload.len() > 0
    &&& !payload.contains('\n')
    &&& !white_space(payload[0])
    &&& payload.last() != '\r'
}

proof fn lemma_ended_line(state: StreamView, line: Seq<char>, crlf: bool)
    requires
        state.line.len() == 0,
        !line.contains('\n'),
    ensures
        fed(state, line + line_end(crlf)) == line_ended(StreamView { line, ..state }),
{
    if crlf {
        let longer = line.push('\r');
        assert(!longer.contains('\n')) by {
            if longer.contains('\n') {
                let j = choose|j: int| 0 <= j < longer.len() && longer[j] == '\n';
                assert(line[j] == '\n');
            }
        }
        lemma_line(state, longer);
        assert(line + line_end(true) =~= longer.push('\n'));
        assert(longer.drop_last() =~= line);
        assert(trimmed_end(longer, '\r') == trimmed_end(line, '\r'));
    } else {
        lemma_line(state, line);
        assert(line + line_end(false) =~= line.push('\n'));
    }
}

/// What is written as an event is read back as it was: the payload comes out once, unchanged, and
/// nothing of it stays behind, whichever way the lines end.
pub proof fn law_event_is_read_back(payload: Seq<char>, crlf: bool)
    requires
        one_line(payload),
    ensures
        fed(nothing_read(), event_text(payload, crlf)) == (nothing_read(), seq![payload]),
{
    let line = data_tag() + seq![' '] + payload;
    assert(!line.contains('\n')) by {
        if line.contains('\n') {
            let j = choose|j: int| 0 <= j < line.len() && line[j] == '\n';
            if j >= 6 {
                assert(payload[j - 6] == '\n');
            } else {
                let head = data_tag() + seq![' '];
                assert(head[0] != '\n' && head[1] != '\n' && head[2] != '\n' && head[3] != '\n'
                    && head[4] != '\n' && head[5] != '\n');
                assert(head[j] == line[j]);
            }
        }
    }
    assert(line.last() == payload.last());
    assert(trimmed_end(line, '\r') == line);
    assert(line.subrange(0, 5) =~= data_tag());
    let rest = line.skip(5);
    assert(rest[0] == ' ');
    assert(rest.drop_first() =~= payload);
    assert(trimmed_start(payload) == payload);
    assert(trimmed_start(rest) == trimmed_start(rest.drop_first()));
    assert(nothing_read().data + payload =~= payload);
    let half = StreamView { line: Seq::empty(), data: payload };
    let blank = Seq::<char>::empty();
    let end = line_end(crlf);
    lemma_ended_line(nothing_read(), line, crlf);
    assert(fed(nothing_read(), line + end) == (half, Seq::<Seq<char>>::empty()));
    assert(!blank.contains('\n'));
    lemma_ended_line(half, blank, crlf);
    assert(!data_tag().is_prefix_of(blank));
    assert(fed(half, blank + end) == (nothing_read(), seq![payload]));
    law_two_pieces(nothing_read(), line + end, blank + end);
    assert(event_text(payload, crlf) =~= (line + end) + (blank + end));
    assert(Seq::<Seq<char>>::empty() + seq![payload] =~= seq![payload]);
}

/// A keepalive changes nothing, whichever way its line ends.
pub proof fn law_keepalive_changes_nothing(state: StreamView, comment: Seq<char>, crlf: bool)
    requires
        state.line.len() == 0,
        !comment.contains('\n'),
    ensures
        fed(state, keepalive_text(comment, crlf)) == (state, Seq::<Seq<char>>::empty()),
{
    let line = seq![':'] + comment;
    assert(!line.contains('\n')) by {
        if line.contains('\n') {
            let j = choose|j: int| 0 <= j < line.len() && line[j] == '\n';
            if j > 0 {
                assert(comment[j - 1] == '\n');
            }
        }
    }
    lemma_ended_line(state, line, crlf);
    lemma_first_stays(line, '\r');
    let content = trimmed_end(line, '\r');
    assert(content[0] == ':');
    if data_tag().is_prefix_of(content) {
        assert(data_tag()[0] == content[0]);
    }
    assert(state.line =~= Seq::<char>::empty());
}

/// What the control plane sends is read back, however it is cut into pieces: of a keepalive, a blank
/// line and an event, exactly the event's payload comes out, and nothing stays behind.
pub proof fn law_watch_body_is_read_back(
    comment: Seq<char>,
    payload: Seq<char>,
    crlf: bool,
    pieces: Seq<Seq<char>>,
)
    requires
        one_line(payload),
        !comment.contains('\n'),
        pieces.flatten() == keepalive_text(comment, crlf) + line_end(crlf) + event_text(
            payload,
            crlf,
        ),
    ensures
        fed_pieces(nothing_read(), pieces) == (nothing_read(), seq![payload]),
{
    let none = Seq::<Seq<char>>::empty();
    let blank = Seq::<char>::empty();
    let keepalive = keepalive_text(comment, crlf);
    let end = line_end(crlf);
    law_keepalive_changes_nothing(nothing_read(), comment, crlf);
    assert(!blank.contains('\n'));
    lemma_ended_line(nothing_read(), blank, crlf);
    assert(blank + end =~= end);
    assert(!data_tag().is_prefix_of(blank));
    assert(fed(nothing_read(), end) == (nothing_read(), none));
    law_two_pieces(nothing_read(), keepalive, end);
    assert(none + none =~= none);
    law_event_is_read_back(payload, crlf);
    law_two_pieces(nothing_read(), keepalive + end, event_text(payload, crlf));
    assert(none + seq![payload] =~= seq![payload]);
    law_pieces_do_not_matter(nothing_read(), pieces);
}

proof fn lemma_first_stays(text: Seq<char>, c: char)
    requires
        text.len() > 0,
        text[0] != c,
    ensures
        trimmed_end(text, c).len() > 0,
        trimmed_end(text, c)[0] == text[0],
    decreases text.len(),
{
    if text.last() == c {
        lemma_first_stays(text.drop_last(), c);
    }
}

/// White space is what Unicode calls so: the control characters from tab to carriage return, the space,
/// the next line, and the spaces and separators above.
pub proof fn law_white_space_is_that_of_unicode(c: char)
    ensures
        white_space(c) <==> {
            ||| 9 <= (c as u32) <= 13
            ||| c == ' '
            ||| (c as u32) == 133
            ||| (c as u32) == 160
            ||| (c as u32) == 5760
            ||| 8192 <= (c as u32) <= 8202
            ||| (c as u32) == 8232
            ||| (c as u32) == 8233
            ||| (c as u32) == 8239
            ||| (c as u32) == 8287
            ||| (c as u32) == 12288
        },
{
}

/// Of a text, the white space at its start is left out, all of it, and nothing else.
pub proof fn law_only_the_start_is_trimmed(text: Seq<char>)
    ensures
        ({
            let left = trimmed_start(text);
            let n = text.len() - left.len();
            &&& 0 <= n
            &&& left == text.skip(n)
            &&& forall|i: int| 0 <= i < n ==> white_space(#[trigger] text[i])
            &&& left.len() > 0 ==> !white_space(left[0])
        }),
    decreases text.len(),
{
    if text.len() > 0 && white_space(text[0]) {
        let rest = text.drop_first();
        law_only_the_start_is_trimmed(rest);
        let left = trimmed_start(text);
        let n = text.len() - left.len();
        assert(rest.skip(n - 1) =~= text.skip(n));
        assert forall|i: int| 0 <= i < n implies white_space(#[trigger] text[i]) by {
            if i > 0 {
                assert(text[i] == rest[i - 1]);
            }
        }
    } else {
        assert(text.skip(0) =~= text);
    }
}

/// What the end of a line makes of a stream. A line that starts with `data:` adds what follows to the
/// payload, without the white space before it; a blank line hands out the payload, where there is one;
/// and every other line is passed over. Carriage returns at the end of a line do not belong to it.
pub proof fn law_what_a_line_makes_of_a_stream(state: StreamView)
    ensures
        ({
            let line = trimmed_end(state.line, '\r');
            let (after, events) = line_ended(state);
            let tagged = line.len() >= 5 && line[0] == 'd' && line[1] == 'a' && line[2] == 't'
                && line[3] == 'a' && line[4] == ':';
            &&& after.line.len() == 0
            &&& tagged ==> after.data == state.data + trimmed_start(line.skip(5)) && events.len()
                == 0
            &&& !tagged && line.len() == 0 && state.data.len() > 0 ==> after.data.len() == 0
                && events == seq![state.data]
            &&& !tagged && (line.len() > 0 || state.data.len() == 0) ==> after.data == state.data
                && events.len() == 0
        }),
{
    let line = trimmed_end(state.line, '\r');
    let tag = data_tag();
    let tagged = line.len() >= 5 && line[0] == 'd' && line[1] == 'a' && line[2] == 't' && line[3]
        == 'a' && line[4] == ':';
    if tagged {
        assert(tag =~= line.subrange(0, 5));
    } else if tag.is_prefix_of(line) {
        assert(tag =~= line.subrange(0, 5));
        assert(tag[0] == line[0] && tag[1] == line[1] && tag[2] == line[2] && tag[3] == line[3]
            && tag[4] == line[4]);
    }
}

/// What one more character makes of a stream: a line feed ends the line, and every other belongs to it.
/// The events come out in the order in which they end.
pub proof fn law_one_more_character(state: StreamView, text: Seq<char>, c: char)
    ensures
        text.len() == 0 ==> fed(state, text).0 == state && fed(state, text).1.len() == 0,
        c == '\n' ==> {
            let (before, events) = fed(state, text);
            let (after, more) = line_ended(before);
            &&& fed(state, text.push(c)).0 == after
            &&& fed(state, text.push(c)).1 == events + more
        },
        c != '\n' ==> {
            let (before, events) = fed(state, text);
            &&& fed(state, text.push(c)).0.line == before.line.push(c)
            &&& fed(state, text.push(c)).0.data == before.data
            &&& fed(state, text.push(c)).1 == events
        },
        nothing_read().line.len() == 0,
        nothing_read().data.len() == 0,
{
    assert(text.push(c).drop_last() =~= text);
    let events = fed(state, text).1;
    assert(events + Seq::<Seq<char>>::empty() =~= events);
}

} // verus!

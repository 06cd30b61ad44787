//! Messages on the serial line: fields between a start and an end marker.
use vstd::prelude::*;
use vstd::utf8::*;
use crate::utf8::is_white_space;
use crate::text::{
    ascii_bytes, dec, mac_text, push_dec, push_mac, push_signed, signed_dec,
};

verus! {

/// The byte before the first field of a message.
pub const START: u8 = 0x02;

/// The byte after the last field of a message.
pub const END: u8 = 0x03;

/// The byte between two fields.
pub const DELIMITER: u8 = 0x01;

/// The first place of `b` in `s` that is not before `from`, or the length of
/// `s` where there is none.
pub open spec fn first_at(s: Seq<u8>, b: u8, from: int) -> int
    decreases s.len() - from,
{
    if from >= s.len() {
        s.len() as int
    } else if s[from] == b {
        from
    } else {
        first_at(s, b, from + 1)
    }
}

/// The pieces of `s` between delimiters; one more than there are delimiters.
pub open spec fn split(s: Seq<u8>) -> Seq<Seq<u8>>
    decreases s.len(),
{
    if s.len() == 0 {
        seq![Seq::<u8>::empty()]
    } else {
        let init = split(s.drop_last());
        if s.last() == DELIMITER {
            init.push(Seq::<u8>::empty())
        } else {
            init.update(init.len() - 1, init.last().push(s.last()))
        }
    }
}

/// The fields of the first message on a line: what stands between the first
/// start marker and the first end marker after it.
pub open spec fn fields_of(line: Seq<u8>) -> Option<Seq<Seq<u8>>> {
    let start = first_at(line, START, 0);
    let end = first_at(line, END, start);
    if start < line.len() && end < line.len() {
        Some(split(line.subrange(start + 1, end)))
    } else {
        None
    }
}

/// Fields with a separator between each two.
pub open spec fn joined<T>(fields: Seq<Seq<T>>, sep: T) -> Seq<T>
    decreases fields.len(),
{
    if fields.len() == 0 {
        Seq::empty()
    } else if fields.len() == 1 {
        fields[0]
    } else {
        joined(fields.drop_last(), sep).push(sep) + fields.last()
    }
}

/// A message as it goes out: markers round the fields, and the end of the line.
pub open spec fn frame_text(fields: Seq<Seq<char>>) -> Seq<char> {
    seq!['\x02'] + joined(fields, '\x01') + seq!['\x03', '\r', '\n']
}

/// A character that a field may hold: ASCII, and no marker or delimiter.
pub open spec fn is_field_char(c: char) -> bool {
    '\0' <= c <= '\x7f' && c != '\x01' && c != '\x02' && c != '\x03'
}

/// All of a text may stand in a field.
pub open spec fn is_field_text(s: Seq<char>) -> bool {
    forall|i: int| 0 <= i < s.len() ==> is_field_char(#[trigger] s[i])
}

/// The bytes of texts of ASCII characters.
pub open spec fn ascii_fields(fields: Seq<Seq<char>>) -> Seq<Seq<u8>> {
    fields.map_values(|f: Seq<char>| ascii_bytes(f))
}

/// The slices of a message as byte sequences.
pub open spec fn field_bytes(fields: Seq<&[u8]>) -> Seq<Seq<u8>> {
    fields.map_values(|f: &[u8]| f@)
}

/// Where `first_at` ends up.
proof fn lemma_first_at(s: Seq<u8>, b: u8, from: int, k: int)
    requires
        0 <= from <= k <= s.len(),
        forall|i: int| from <= i < k ==> s[i] != b,
        k < s.len() ==> s[k] == b,
    ensures
        first_at(s, b, from) == k,
    decreases k - from,
{
    if from < k {
        lemma_first_at(s, b, from + 1, k);
    }
}

/// There is always a first piece.
proof fn lemma_split_some(s: Seq<u8>)
    ensures
        split(s).len() > 0,
    decreases s.len(),
{
    if s.len() > 0 {
        lemma_split_some(s.drop_last());
    }
}

/// Bytes that are no delimiters lengthen the last piece.
proof fn lemma_split_extend(s: Seq<u8>, t: Seq<u8>)
    requires
        forall|i: int| 0 <= i < t.len() ==> t[i] != DELIMITER,
    ensures
        split(s).len() > 0,
        split(s + t) == split(s).update(split(s).len() - 1, split(s).last() + t),
    decreases t.len(),
{
    lemma_split_some(s);
    if t.len() == 0 {
        assert(s + t =~= s);
        assert(split(s).last() + t =~= split(s).last());
        assert(split(s).update(split(s).len() - 1, split(s).last()) =~= split(s));
    } else {
        lemma_split_extend(s, t.drop_last());
        assert((s + t).drop_last() =~= s + t.drop_last());
        let init = split(s + t.drop_last());
        assert(init.last().push(t.last()) =~= split(s).last() + t);
        assert(init.update(init.len() - 1, init.last().push(t.last())) =~= split(s).update(
            split(s).len() - 1,
            split(s).last() + t,
        ));
    }
}

/// Splitting gives back what was joined.
pub proof fn lemma_split_joined(fields: Seq<Seq<u8>>)
    requires
        fields.len() > 0,
        forall|i: int, j: int|
            0 <= i < fields.len() && 0 <= j < fields[i].len() ==> #[trigger] fields[i][j]
                != DELIMITER,
    ensures
        split(joined(fields, DELIMITER)) == fields,
    decreases fields.len(),
{
    let empty = Seq::<u8>::empty();
    if fields.len() == 1 {
        assert(split(empty) =~= seq![empty]);
        lemma_split_extend(empty, fields[0]);
        assert(empty + fields[0] =~= fields[0]);
        assert(split(fields[0]) =~= fields);
    } else {
        let init = fields.drop_last();
        assert forall|i: int, j: int|
            0 <= i < init.len() && 0 <= j < init[i].len() implies #[trigger] init[i][j]
            != DELIMITER by {
            assert(init[i] == fields[i]);
        }
        lemma_split_joined(init);
        let head = joined(init, DELIMITER);
        assert(head.push(DELIMITER).drop_last() =~= head);
        assert(split(head.push(DELIMITER)) =~= init.push(empty));
        lemma_split_extend(head.push(DELIMITER), fields.last());
        assert(split(joined(fields, DELIMITER)) =~= fields);
    }
}

/// The bytes of joined texts are the joined bytes of the texts.
proof fn lemma_joined_bytes(fields: Seq<Seq<char>>)
    ensures
        ascii_bytes(joined(fields, '\x01')) == joined(
            ascii_fields(fields),
            DELIMITER,
        ),
    decreases fields.len(),
{
    let bytes = ascii_fields(fields);
    if fields.len() == 0 {
        assert(ascii_bytes(joined(fields, '\x01')) =~= joined(bytes, DELIMITER));
    } else if fields.len() > 1 {
        lemma_joined_bytes(fields.drop_last());
        assert(ascii_fields(fields.drop_last()) =~= bytes.drop_last());
        assert(ascii_bytes(joined(fields, '\x01')) =~= joined(bytes, DELIMITER));
    }
}

/// Joined field texts hold ASCII characters and delimiters.
proof fn lemma_joined_chars(fields: Seq<Seq<char>>)
    requires
        forall|i: int| 0 <= i < fields.len() ==> is_field_text(#[trigger] fields[i]),
    ensures
        forall|k: int|
            0 <= k < joined(fields, '\x01').len() ==> is_field_char(
                #[trigger] joined(fields, '\x01')[k],
            ) || joined(fields, '\x01')[k] == '\x01',
    decreases fields.len(),
{
    if fields.len() > 1 {
        let init = fields.drop_last();
        assert forall|i: int| 0 <= i < init.len() implies is_field_text(#[trigger] init[i]) by {
            assert(init[i] == fields[i]);
        }
        lemma_joined_chars(init);
        assert(is_field_text(fields.last()));
        let head = joined(init, '\x01');
        let all = joined(fields, '\x01');
        assert forall|k: int| 0 <= k < all.len() implies is_field_char(#[trigger] all[k]) || all[k]
            == '\x01' by {
            if k < head.len() {
                assert(all[k] == head[k]);
            } else if k > head.len() {
                assert(all[k] == fields.last()[k - head.len() - 1]);
            }
        }
    } else if fields.len() == 1 {
        assert(is_field_text(fields[0]));
    }
}

/// The bytes of an ASCII text are its characters.
pub proof fn lemma_ascii_utf8(s: Seq<char>)
    requires
        forall|i: int| 0 <= i < s.len() ==> '\0' <= #[trigger] s[i] <= '\x7f',
    ensures
        encode_utf8(s) == ascii_bytes(s),
        valid_utf8(ascii_bytes(s)),
        decode_utf8(ascii_bytes(s)) == s,
{
    assert(is_ascii_chars(s));
    is_ascii_chars_encode_utf8(s);
    assert(encode_utf8(s) =~= ascii_bytes(s));
    encode_utf8_valid_utf8(s);
    encode_utf8_decode_utf8(s);
}

/// Reading a line gives back the fields of the message on it, whatever stands
/// before it, if that is no start of a message, and whatever stands behind it.
pub proof fn lemma_fields_in_line(pre: Seq<u8>, fields: Seq<Seq<u8>>, post: Seq<u8>)
    requires
        fields.len() > 0,
        !pre.contains(START),
        forall|i: int, j: int|
            0 <= i < fields.len() && 0 <= j < fields[i].len() ==> #[trigger] fields[i][j]
                != DELIMITER,
        !joined(fields, DELIMITER).contains(END),
    ensures
        fields_of(pre + seq![START] + joined(fields, DELIMITER) + seq![END] + post) == Some(fields),
{
    let body = joined(fields, DELIMITER);
    let line = pre + seq![START] + body + seq![END] + post;
    let start = pre.len() as int;
    let end = start + 1 + body.len();
    assert forall|i: int| 0 <= i < start implies line[i] != START by {
        assert(line[i] == pre[i]);
        assert(pre.contains(pre[i]));
    }
    assert(line[start] == START);
    lemma_first_at(line, START, 0, start);
    assert forall|i: int| start <= i < end implies line[i] != END by {
        if i > start {
            assert(line[i] == body[i - start - 1]);
            assert(body.contains(body[i - start - 1]));
        }
    }
    assert(line[end] == END);
    lemma_first_at(line, END, start, end);
    assert(line.subrange(start + 1, end) =~= body);
    lemma_split_joined(fields);
}

/// Reading a line gives back the fields of the message that was written on it.
pub proof fn lemma_fields_of_frame(fields: Seq<Seq<char>>)
    requires
        fields.len() > 0,
        forall|i: int| 0 <= i < fields.len() ==> is_field_text(#[trigger] fields[i]),
    ensures
        fields_of(encode_utf8(frame_text(fields))) == Some(
            ascii_fields(fields),
        ),
{
    let bytes = ascii_fields(fields);
    let pre = Seq::<u8>::empty();
    let post = seq![13u8, 10u8];
    lemma_frame_ascii(fields);
    lemma_ascii_utf8(frame_text(fields));
    lemma_field_bytes(fields);
    lemma_fields_in_line(pre, bytes, post);
    assert(ascii_bytes(frame_text(fields)) =~= pre + seq![START] + joined(bytes, DELIMITER)
        + seq![END] + post);
}

/// Texts that can stand in fields have no markers or delimiters among their
/// bytes.
pub proof fn lemma_field_bytes(fields: Seq<Seq<char>>)
    requires
        forall|i: int| 0 <= i < fields.len() ==> is_field_text(#[trigger] fields[i]),
    ensures
        joined(ascii_fields(fields), DELIMITER) == ascii_bytes(
            joined(fields, '\x01'),
        ),
        !joined(ascii_fields(fields), DELIMITER).contains(END),
        forall|i: int, j: int|
            0 <= i < fields.len() && 0 <= j < fields[i].len() ==> #[trigger] ascii_fields(fields)[i][j] != DELIMITER,
{
    let bytes = ascii_fields(fields);
    let body = joined(fields, '\x01');
    lemma_joined_bytes(fields);
    lemma_joined_chars(fields);
    assert forall|i: int, j: int|
        0 <= i < bytes.len() && 0 <= j < bytes[i].len() implies #[trigger] bytes[i][j]
        != DELIMITER by {
        assert(is_field_text(fields[i]));
        assert(is_field_char(fields[i][j]));
        assert(bytes[i][j] == fields[i][j] as u8);
    }
    assert forall|i: int| 0 <= i < body.len() implies ascii_bytes(body)[i] != END by {
        assert(is_field_char(body[i]) || body[i] == '\x01');
    }
}

/// A hardware address can stand in a field, with no white space in it.
pub proof fn lemma_mac_field(m: Seq<u8>)
    ensures
        mac_text(m).len() == 17,
        is_field_text(mac_text(m)),
        forall|i: int| 0 <= i < mac_text(m).len() ==> !is_white_space(#[trigger] mac_text(m)[i]),
{
}

/// How long a joined text can be where all fields but one are short.
pub proof fn lemma_joined_len(fields: Seq<Seq<char>>, sep: char, k: int, short: nat)
    requires
        forall|i: int| 0 <= i < fields.len() && i != k ==> (#[trigger] fields[i]).len() <= short,
        k >= 0,
    ensures
        joined(fields, sep).len() <= fields.len() * (short + 1) + (if k < fields.len() {
            fields[k].len()
        } else {
            0
        }),
    decreases fields.len(),
{
    if fields.len() > 1 {
        lemma_joined_len(fields.drop_last(), sep, k, short);
        assert((fields.len() - 1) * (short + 1) + (short + 1) == fields.len() * (short + 1))
            by (nonlinear_arith);
    } else if fields.len() == 1 {
        assert(1 * (short + 1) == short + 1);
    }
}

/// A message of texts that can stand in fields is ASCII.
pub proof fn lemma_frame_ascii(fields: Seq<Seq<char>>)
    requires
        forall|i: int| 0 <= i < fields.len() ==> is_field_text(#[trigger] fields[i]),
    ensures
        forall|i: int|
            0 <= i < joined(fields, '\x01').len() ==> '\0' <= #[trigger] joined(fields, '\x01')[i]
                <= '\x7f',
        forall|i: int|
            0 <= i < frame_text(fields).len() ==> '\0' <= #[trigger] frame_text(fields)[i]
                <= '\x7f',
{
    let body = joined(fields, '\x01');
    lemma_joined_chars(fields);
    assert forall|i: int| 0 <= i < frame_text(fields).len() implies '\0' <= #[trigger] frame_text(
        fields,
    )[i] <= '\x7f' by {
        if 1 <= i < 1 + body.len() {
            assert(frame_text(fields)[i] == body[i - 1]);
        }
    }
}

/// One more field goes behind a delimiter.
pub proof fn lemma_joined_push<T>(fields: Seq<Seq<T>>, f: Seq<T>, sep: T)
    requires
        fields.len() > 0,
    ensures
        joined(fields.push(f), sep) == joined(fields, sep).push(sep) + f,
{
    assert(fields.push(f).drop_last() =~= fields);
}

/// The first place of `b` that is not before `from`.
pub(crate) fn find(bytes: &[u8], b: u8, from: usize) -> (r: usize)
    requires
        from <= bytes@.len(),
    ensures
        r == first_at(bytes@, b, from as int),
        from <= r <= bytes@.len(),
        r < bytes@.len() ==> bytes@[r as int] == b,
{
    let mut i: usize = from;
    while i < bytes.len() && bytes[i] != b
        invariant
            from <= i <= bytes@.len(),
            forall|k: int| from <= k < i ==> bytes@[k] != b,
        decreases bytes@.len() - i,
    {
        i = i + 1;
    }
    proof {
        lemma_first_at(bytes@, b, from as int, i as int);
    }
    i
}

/// Splits `bytes[start..end]` at the delimiters.
pub(crate) fn split_range(bytes: &[u8], start: usize, end: usize) -> (r: Vec<&[u8]>)
    requires
        start <= end <= bytes@.len(),
    ensures
        field_bytes(r@) == split(bytes@.subrange(start as int, end as int)),
{
    let ghost content = bytes@.subrange(start as int, end as int);
    let mut fields: Vec<&[u8]> = Vec::new();
    let mut from: usize = start;
    let mut i: usize = start;
    assert(content.take(0) =~= Seq::<u8>::empty());
    assert(bytes@.subrange(start as int, start as int) =~= Seq::<u8>::empty());
    assert(field_bytes(fields@).push(bytes@.subrange(from as int, i as int)) =~= split(
        content.take(0),
    ));
    while i < end
        invariant
            start <= from <= i <= end <= bytes@.len(),
            content == bytes@.subrange(start as int, end as int),
            field_bytes(fields@).push(bytes@.subrange(from as int, i as int)) == split(
                content.take(i - start),
            ),
        decreases end - i,
    {
        let ghost before = field_bytes(fields@);
        let ghost piece = bytes@.subrange(from as int, i as int);
        proof {
            let longer = content.take(i - start + 1);
            assert(longer.drop_last() =~= content.take(i - start));
            assert(longer.last() == bytes@[i as int]);
            assert(piece.push(bytes@[i as int]) =~= bytes@.subrange(from as int, i + 1));
            assert(before.push(piece).update(
                before.len() as int,
                piece.push(bytes@[i as int]),
            ) =~= before.push(piece.push(bytes@[i as int])));
            assert(bytes@.subrange(i + 1, i + 1) =~= Seq::<u8>::empty());
        }
        if bytes[i] == DELIMITER {
            fields.push(vstd::slice::slice_subrange(bytes, from, i));
            assert(field_bytes(fields@) =~= before.push(piece));
            from = i + 1;
        }
        i = i + 1;
    }
    assert(content.take(end - start) =~= content);
    let ghost before = field_bytes(fields@);
    fields.push(vstd::slice::slice_subrange(bytes, from, end));
    assert(field_bytes(fields@) =~= before.push(bytes@.subrange(from as int, end as int)));
    fields
}

/// Adds a field behind the ones before it.
pub(crate) fn next_text(
    out: &mut String,
    text: &str,
    sep: char,
    Ghost(fields): Ghost<Seq<Seq<char>>>,
)
    requires
        fields.len() > 0,
        old(out)@ == joined(fields, sep),
    ensures
        final(out)@ == joined(fields.push(text@), sep),
{
    out.push(sep);
    out.append(text);
    proof {
        lemma_joined_push(fields, text@, sep);
        assert(out@ =~= joined(fields, sep).push(sep) + text@);
    }
}

/// Adds a field with a number behind the ones before it.
pub(crate) fn next_dec(
    out: &mut String,
    n: u64,
    sep: char,
    Ghost(fields): Ghost<Seq<Seq<char>>>,
)
    requires
        fields.len() > 0,
        old(out)@ == joined(fields, sep),
    ensures
        final(out)@ == joined(fields.push(dec(n as nat)), sep),
{
    out.push(sep);
    push_dec(out, n);
    proof {
        lemma_joined_push(fields, dec(n as nat), sep);
        assert(out@ =~= joined(fields, sep).push(sep) + dec(n as nat));
    }
}

/// Adds a field with a signed number behind the ones before it.
pub(crate) fn next_signed(
    out: &mut String,
    n: i64,
    sep: char,
    Ghost(fields): Ghost<Seq<Seq<char>>>,
)
    requires
        fields.len() > 0,
        old(out)@ == joined(fields, sep),
    ensures
        final(out)@ == joined(fields.push(signed_dec(n as int)), sep),
{
    out.push(sep);
    push_signed(out, n);
    proof {
        lemma_joined_push(fields, signed_dec(n as int), sep);
        assert(out@ =~= joined(fields, sep).push(sep) + signed_dec(n as int));
    }
}

/// Adds a field with a hardware address behind the ones before it.
pub(crate) fn next_mac(
    out: &mut String,
    mac: &[u8; 6],
    sep: char,
    Ghost(fields): Ghost<Seq<Seq<char>>>,
)
    requires
        fields.len() > 0,
        old(out)@ == joined(fields, sep),
    ensures
        final(out)@ == joined(fields.push(mac_text(mac@)), sep),
{
    out.push(sep);
    push_mac(out, mac);
    proof {
        lemma_joined_push(fields, mac_text(mac@), sep);
        assert(out@ =~= joined(fields, sep).push(sep) + mac_text(mac@));
    }
}

/// Puts the markers round the fields of a message, and ends the line.
pub(crate) fn framed(body: &str, Ghost(fields): Ghost<Seq<Seq<char>>>) -> (r: String)
    requires
        body@ == joined(fields, '\x01'),
    ensures
        r@ == frame_text(fields),
{
    let mut out: String = String::new();
    out.push('\x02');
    out.append(body);
    out.push('\x03');
    out.push('\r');
    out.push('\n');
    assert(out@ =~= frame_text(fields));
    out
}

/// Splitting loses nothing: the pieces with a delimiter between each two are the whole
/// again, and no piece holds a delimiter.
pub proof fn lemma_split_whole(s: Seq<u8>)
    ensures
        split(s).len() > 0,
        joined(split(s), 1u8) == s,
        forall|i: int, j: int|
            0 <= i < split(s).len() && 0 <= j < split(s)[i].len() ==> #[trigger] split(s)[i][j]
                != 1,
    decreases s.len(),
{
    let all = split(s);
    if s.len() == 0 {
        assert(joined(all, 1u8) =~= s);
    } else {
        let rest = s.drop_last();
        let init = split(rest);
        lemma_split_whole(rest);
        assert(s =~= rest.push(s.last()));
        if s.last() == 1 {
            lemma_joined_push(init, Seq::<u8>::empty(), 1u8);
            assert(joined(all, 1u8) =~= s);
            assert forall|i: int, j: int|
                0 <= i < all.len() && 0 <= j < all[i].len() implies #[trigger] all[i][j] != 1 by {
                assert(all[i] == init[i]);
                assert(init[i][j] != 1);
            }
        } else {
            let piece = init.last().push(s.last());
            if init.len() == 1 {
                assert(joined(all, 1u8) =~= s);
            } else {
                assert(all.drop_last() =~= init.drop_last());
                assert(joined(all, 1u8) =~= joined(init, 1u8).push(s.last()));
            }
            assert forall|i: int, j: int|
                0 <= i < all.len() && 0 <= j < all[i].len() implies #[trigger] all[i][j] != 1 by {
                if i < init.len() - 1 {
                    assert(all[i] == init[i]);
                    assert(init[i][j] != 1);
                } else if j < init.last().len() {
                    assert(init[init.len() - 1][j] != 1);
                }
            }
        }
    }
}

/// A message is found wherever it stands in a line: it is what stands between the first
/// byte 2 and the first byte 3 behind it, however long that is.
pub proof fn lemma_message_in_line(pre: Seq<u8>, body: Seq<u8>, post: Seq<u8>)
    requires
        forall|i: int| 0 <= i < pre.len() ==> pre[i] != 2,
        forall|i: int| 0 <= i < body.len() ==> body[i] != 3,
    ensures
        fields_of(pre + seq![2u8] + body + seq![3u8] + post) == Some(split(body)),
{
    let line = pre + seq![2u8] + body + seq![3u8] + post;
    let start = pre.len() as int;
    let end = start + 1 + body.len();
    lemma_first_at(line, 2, 0, start);
    assert forall|i: int| start <= i < end implies line[i] != 3 by {
        if i > start {
            assert(line[i] == body[i - start - 1]);
        }
    }
    lemma_first_at(line, 3, start, end);
    assert(line.subrange(start + 1, end) =~= body);
}

/// A line without a byte 3 behind a byte 2 has no message on it.
pub proof fn lemma_no_message(line: Seq<u8>)
    requires
        forall|i: int, j: int|
            0 <= i < j < line.len() && #[trigger] line[i] == 2 ==> #[trigger] line[j] != 3,
    ensures
        fields_of(line) is None,
{
    let start = first_at(line, 2, 0);
    lemma_first_at_bounds(line, 2, 0);
    if start < line.len() {
        lemma_first_at_bounds(line, 3, start);
    }
}

/// What `first_at` finds.
pub proof fn lemma_first_at_bounds(s: Seq<u8>, b: u8, from: int)
    requires
        0 <= from <= s.len(),
    ensures
        from <= first_at(s, b, from) <= s.len(),
        first_at(s, b, from) < s.len() ==> s[first_at(s, b, from)] == b,
        forall|i: int| from <= i < first_at(s, b, from) ==> s[i] != b,
    decreases s.len() - from,
{
    if from < s.len() {
        lemma_first_at_bounds(s, b, from + 1);
    }
}

/// A message starts with a marker and ends with another and the end of the line; between
/// them stand its fields, with a delimiter between each two.
pub proof fn lemma_frame_text(fields: Seq<Seq<char>>, f: Seq<char>)
    ensures
        frame_text(fields)[0] == '\x02',
        frame_text(fields).len() == joined(fields, '\x01').len() + 4,
        frame_text(fields).subrange(1, frame_text(fields).len() - 3) == joined(fields, '\x01'),
        frame_text(fields).skip(frame_text(fields).len() - 3) == seq!['\x03', '\r', '\n'],
        joined(seq![f], '\x01') == f,
        fields.len() > 0 ==> joined(fields.push(f), '\x01') == joined(fields, '\x01') + seq![
            '\x01',
        ] + f,
{
    let line = frame_text(fields);
    assert(line.subrange(1, line.len() - 3) =~= joined(fields, '\x01'));
    assert(line.skip(line.len() - 3) =~= seq!['\x03', '\r', '\n']);
    if fields.len() > 0 {
        lemma_joined_push(fields, f, '\x01');
        assert(joined(fields, '\x01').push('\x01') + f =~= joined(fields, '\x01') + seq!['\x01']
            + f);
    }
}

} // verus!

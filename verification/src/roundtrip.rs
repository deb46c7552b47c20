//! Decoding undoes encoding: the laws that tie `serialized` to `deserialized`.
use crate::decimal::{
    decimal, is_digit, lemma_decimal_digits, lemma_parse_signed_decimal,
    lemma_parse_unsigned_decimal, signed_decimal,
};
use crate::error::ObjectError;
use crate::hash::{hex_bytes, is_digest, lemma_hex_bytes};
use crate::objects::{
    all_hashes_hex, author_key, blob_tag, commit_tag, commit_text, deserialized, first_entry,
    framed, header_text, parent_key, parsed_commit, parsed_content, parsed_header, parsed_tree,
    read_line, read_lines, serialized, timestamp_key, tree_bytes, tree_entry_bytes, tree_key,
    tree_tag, CommitFields, CommitView, ObjectView, TreeEntryView,
};
use crate::scan::{is_space, lemma_leading_spaces_is, lemma_token_len_is, strip_cr, tokens_of};
use crate::text::lemma_first_index_is;
use vstd::prelude::*;
use vstd::utf8::{
    encode_scalar, encode_utf8, encode_utf8_decode_utf8, encode_utf8_valid_utf8,
    has_width_1_encoding, is_ascii_chars, is_ascii_chars_encode_utf8, is_scalar,
};

verus! {

/// Whether `c` occurs nowhere in `s`.
pub open spec fn lacks(s: Seq<char>, c: char) -> bool {
    forall|i: int| 0 <= i < s.len() ==> #[trigger] s[i] != c
}

/// The UTF-8 bytes of a character other than the ASCII character `b` are all
/// different from `b`.
proof fn lemma_scalar_lacks_ascii(v: u32, b: u8)
    requires
        is_scalar(v),
        b < 0x80,
        v != b as u32,
    ensures
        forall|j: int| 0 <= j < encode_scalar(v).len() ==> #[trigger] encode_scalar(v)[j] != b,
{
    if has_width_1_encoding(v) {
        assert((v & 0x7F) as u8 == v) by (bit_vector)
            requires
                v <= 0x7F,
        ;
    } else {
        assert((0xC0u8 | (((v >> 6) & 0x1F) as u8)) >= 0x80u8) by (bit_vector);
        assert((0xE0u8 | (((v >> 12) & 0x0F) as u8)) >= 0x80u8) by (bit_vector);
        assert((0xF0u8 | (((v >> 18) & 0x7) as u8)) >= 0x80u8) by (bit_vector);
        assert((0x80u8 | ((v & 0x3F) as u8)) >= 0x80u8) by (bit_vector);
        assert((0x80u8 | (((v >> 6) & 0x3F) as u8)) >= 0x80u8) by (bit_vector);
        assert((0x80u8 | (((v >> 12) & 0x3F) as u8)) >= 0x80u8) by (bit_vector);
    }
}

/// A text without the ASCII character `c` has UTF-8 bytes without the byte of `c`.
pub proof fn lemma_utf8_lacks_ascii(s: Seq<char>, c: char)
    requires
        (c as u32) < 0x80,
        lacks(s, c),
    ensures
        forall|j: int| 0 <= j < encode_utf8(s).len() ==> #[trigger] encode_utf8(s)[j] != c as u8,
    decreases s.len(),
{
    if s.len() > 0 {
        let head = encode_scalar(s[0] as u32);
        let t = s.drop_first();
        assert forall|i: int| 0 <= i < t.len() implies #[trigger] t[i] != c by {
            assert(t[i] == s[i + 1]);
        }
        lemma_utf8_lacks_ascii(t, c);
        vstd::utf8::char_is_scalar(s[0]);
        assert(s[0] != c);
        if s[0] as u32 == c as u32 {
            vstd::utf8::char_u32_cast(s[0], s[0] as u32);
            vstd::utf8::char_u32_cast(c, c as u32);
        }
        lemma_scalar_lacks_ascii(s[0] as u32, c as u8);
        assert forall|j: int| 0 <= j < encode_utf8(s).len() implies #[trigger] encode_utf8(s)[j]
            != c as u8 by {
            if j < head.len() {
                assert(encode_utf8(s)[j] == head[j]);
            } else {
                assert(encode_utf8(s)[j] == encode_utf8(t)[j - head.len()]);
            }
        }
    }
}

/// Whether `c` is an ASCII character other than NUL.
pub open spec fn is_plain(c: char) -> bool {
    '\u{1}' <= c && c <= '\u{7f}'
}

/// Two words with one space between them are two tokens.
proof fn lemma_two_words(a: Seq<char>, b: Seq<char>)
    requires
        a.len() > 0,
        b.len() > 0,
        forall|i: int| 0 <= i < a.len() ==> !is_space(#[trigger] a[i]),
        forall|i: int| 0 <= i < b.len() ==> !is_space(#[trigger] b[i]),
    ensures
        tokens_of(a + seq![' '] + b) == seq![a, b],
{
    let s = a + seq![' '] + b;
    assert(s[0] == a[0]);
    lemma_leading_spaces_is(s, 0);
    assert(s.skip(0) =~= s);
    assert forall|i: int| 0 <= i < a.len() implies !is_space(s[i]) by {
        assert(s[i] == a[i]);
    }
    assert(s[a.len() as int] == ' ');
    lemma_token_len_is(s, a.len() as int);
    assert(s.take(a.len() as int) =~= a);
    let s2 = s.skip(a.len() as int);
    assert(s2 =~= seq![' '] + b);
    assert(s2[1] == b[0]);
    lemma_leading_spaces_is(s2, 1);
    let s3 = s2.skip(1);
    assert(s3 =~= b);
    lemma_token_len_is(s3, b.len() as int);
    assert(s3.take(b.len() as int) =~= b);
    let s4 = s3.skip(b.len() as int);
    assert(s4 =~= Seq::<char>::empty());
    assert(tokens_of(s4) =~= Seq::<Seq<char>>::empty());
    assert(tokens_of(s2) =~= seq![b]);
    assert(tokens_of(s) =~= seq![a, b]);
}

/// Whether `tag` is one of the three tags.
pub open spec fn is_tag(tag: Seq<char>) -> bool {
    tag == blob_tag() || tag == tree_tag() || tag == commit_tag()
}

/// The header that is written in front of a content is found again, with its tag,
/// and the content behind it.
pub proof fn lemma_frame(tag: Seq<char>, content: Seq<u8>)
    requires
        is_tag(tag),
        content.len() <= usize::MAX,
    ensures
        deserialized(framed(tag, content)) == parsed_content(tag, content),
{
    let n = content.len();
    let digits = decimal(n);
    let h0 = tag + seq![' '] + digits;
    let h = header_text(tag, n);
    let hb = encode_utf8(h);
    let data = framed(tag, content);
    lemma_decimal_digits(n);
    assert(h =~= h0.push('\0'));
    assert forall|i: int| 0 <= i < h0.len() implies is_plain(#[trigger] h0[i]) by {
        if i < tag.len() {
            assert(h0[i] == tag[i]);
        } else if i == tag.len() {
        } else {
            assert(h0[i] == digits[i - tag.len() - 1]);
            assert(is_digit(digits[i - tag.len() - 1]));
        }
    }
    assert(is_ascii_chars(h0)) by {
        assert forall|i: int| 0 <= i < h0.len() implies '\0' <= h0[i] && h0[i] <= '\u{7f}' by {
            assert(is_plain(h0[i]));
        }
    }
    assert(is_ascii_chars(h)) by {
        assert forall|i: int| 0 <= i < h.len() implies '\0' <= h[i] && h[i] <= '\u{7f}' by {
            if i < h0.len() {
                assert(h[i] == h0[i]);
                assert(is_plain(h0[i]));
            }
        }
    }
    is_ascii_chars_encode_utf8(h);
    is_ascii_chars_encode_utf8(h0);
    let k = h0.len() as int;
    assert forall|i: int| 0 <= i < k implies data[i] != 0u8 by {
        assert(data[i] == hb[i]);
        assert(hb[i] == h[i] as u8);
        assert(h[i] == h0[i]);
        assert(is_plain(h0[i]));
    }
    assert(data[k] == 0u8) by {
        assert(data[k] == hb[k]);
        assert(hb[k] == h[k] as u8);
    }
    lemma_first_index_is(data, 0u8, k);
    assert(data.take(k) =~= encode_utf8(h0)) by {
        assert forall|i: int| 0 <= i < k implies data.take(k)[i] == encode_utf8(h0)[i] by {
            assert(data[i] == hb[i]);
            assert(hb[i] == h[i] as u8);
            assert(h[i] == h0[i]);
        }
    }
    assert(data.skip(k + 1) =~= content);
    encode_utf8_valid_utf8(h0);
    encode_utf8_decode_utf8(h0);
    assert forall|i: int| 0 <= i < tag.len() implies !is_space(#[trigger] tag[i]) by {}
    assert forall|i: int| 0 <= i < digits.len() implies !is_space(#[trigger] digits[i]) by {
        assert(is_digit(digits[i]));
    }
    lemma_two_words(tag, digits);
    lemma_parse_unsigned_decimal(n, usize::MAX as nat);
    assert(parsed_header(data.take(k)) == Ok::<Seq<char>, ObjectError>(tag));
}

/// Every payload comes back from its encoding as the same blob.
pub proof fn law_blob_round_trip(data: Seq<u8>)
    requires
        data.len() <= usize::MAX,
    ensures
        serialized(ObjectView::Blob(data)) matches Ok(bytes) && deserialized(bytes) == Ok::<
            ObjectView,
            ObjectError,
        >(ObjectView::Blob(data)),
{
    lemma_frame(blob_tag(), data);
}

/// Whether an entry can be told apart from what stands around it: no space in
/// the mode, no NUL in the name, and a digest of forty lower-case hexadecimal
/// digits.
pub open spec fn tree_entry_wf(e: TreeEntryView) -> bool {
    lacks(e.mode, ' ') && lacks(e.name, '\0') && is_digest(e.hash)
}

/// Whether every entry is well formed.
pub open spec fn tree_wf(entries: Seq<TreeEntryView>) -> bool {
    forall|i: int| 0 <= i < entries.len() ==> tree_entry_wf(#[trigger] entries[i])
}

/// A well-formed entry is read back from its bytes, whatever follows them.
proof fn lemma_first_entry(e: TreeEntryView, rest: Seq<u8>)
    requires
        tree_entry_wf(e),
    ensures
        first_entry(tree_entry_bytes(e) + rest) == Ok::<(TreeEntryView, int), ObjectError>(
            (e, tree_entry_bytes(e).len() as int),
        ),
        tree_entry_bytes(e).len() > 0,
{
    let m = encode_utf8(e.mode);
    let nm = encode_utf8(e.name);
    let hb = hex_bytes(e.hash);
    let content = tree_entry_bytes(e) + rest;
    lemma_hex_bytes(e.hash);
    lemma_utf8_lacks_ascii(e.mode, ' ');
    lemma_utf8_lacks_ascii(e.name, '\0');
    let sp = m.len() as int;
    assert forall|i: int| 0 <= i < sp implies content[i] != 0x20u8 by {
        assert(content[i] == m[i]);
    }
    assert(content[sp] == 0x20u8);
    lemma_first_index_is(content, 0x20u8, sp);
    assert(content.take(sp) =~= m);
    encode_utf8_valid_utf8(e.mode);
    encode_utf8_decode_utf8(e.mode);
    let after_mode = content.skip(sp + 1);
    assert(after_mode =~= nm + seq![0u8] + hb + rest);
    let nul = nm.len() as int;
    assert forall|i: int| 0 <= i < nul implies after_mode[i] != 0u8 by {
        assert(after_mode[i] == nm[i]);
    }
    assert(after_mode[nul] == 0u8);
    lemma_first_index_is(after_mode, 0u8, nul);
    assert(after_mode.take(nul) =~= nm);
    encode_utf8_valid_utf8(e.name);
    encode_utf8_decode_utf8(e.name);
    let after_name = after_mode.skip(nul + 1);
    assert(after_name =~= hb + rest);
    assert(after_name.take(20) =~= hb);
}

/// Well-formed entries are read back from their bytes.
proof fn lemma_parsed_tree(entries: Seq<TreeEntryView>)
    requires
        tree_wf(entries),
    ensures
        parsed_tree(tree_bytes(entries)) == Ok::<Seq<TreeEntryView>, ObjectError>(entries),
    decreases entries.len(),
{
    if entries.len() == 0 {
        assert(entries =~= Seq::<TreeEntryView>::empty());
    } else {
        let e = entries[0];
        let tail = entries.drop_first();
        assert forall|i: int| 0 <= i < tail.len() implies tree_entry_wf(#[trigger] tail[i]) by {
            assert(tail[i] == entries[i + 1]);
        }
        lemma_parsed_tree(tail);
        lemma_first_entry(e, tree_bytes(tail));
        let content = tree_bytes(entries);
        let n = tree_entry_bytes(e).len() as int;
        assert(content.skip(n) =~= tree_bytes(tail));
        assert(seq![e] + tail =~= entries);
    }
}

/// Every list of well-formed entries comes back from its encoding as the same
/// tree, entry for entry and in the same order.
pub proof fn law_tree_round_trip(entries: Seq<TreeEntryView>)
    requires
        tree_wf(entries),
        tree_bytes(entries).len() <= usize::MAX,
    ensures
        serialized(ObjectView::Tree(entries)) matches Ok(bytes) && deserialized(bytes) == Ok::<
            ObjectView,
            ObjectError,
        >(ObjectView::Tree(entries)),
{
    assert forall|i: int| 0 <= i < entries.len() implies crate::hash::is_hex(
        #[trigger] entries[i].hash,
    ) by {
        assert(tree_entry_wf(entries[i]));
        lemma_hex_bytes(entries[i].hash);
    }
    assert(all_hashes_hex(entries));
    lemma_frame(tree_tag(), tree_bytes(entries));
    lemma_parsed_tree(entries);
}

/// Whether `s` can stand on a line of its own: no line feed in it and no
/// carriage return at its end.
pub open spec fn line_safe(s: Seq<char>) -> bool {
    lacks(s, '\n') && (s.len() > 0 ==> s.last() != '\r')
}

/// Whether the fields of a commit can each stand on a line, and the timestamp
/// fits 64 bits.
pub open spec fn commit_wf(c: CommitView) -> bool {
    &&& line_safe(c.tree)
    &&& line_safe(c.author)
    &&& (c.parent matches Some(p) ==> line_safe(p))
    &&& i64::MIN <= c.timestamp <= i64::MAX
}

/// A line and its line feed are read as that line; reading goes on behind them.
proof fn lemma_line_then(line: Seq<char>, rest: Seq<char>, f: CommitFields)
    requires
        line.len() > 0,
        line_safe(line),
    ensures
        read_lines(line + seq!['\n'] + rest, f) == (match read_line(line, f) {
            Ok(g) => read_lines(rest, g),
            Err(e) => Err(e),
        }),
{
    let t = line + seq!['\n'] + rest;
    let k = line.len() as int;
    assert forall|i: int| 0 <= i < k implies t[i] != '\n' by {
        assert(t[i] == line[i]);
    }
    assert(t[k] == '\n');
    lemma_first_index_is(t, '\n', k);
    assert(t.take(k) =~= line);
    assert(t.skip(k + 1) =~= rest);
    assert(strip_cr(line) == line);
}

/// A blank line ends the fields; the message is what follows it.
proof fn lemma_blank_line(rest: Seq<char>, f: CommitFields)
    ensures
        read_lines(seq!['\n'] + rest, f) == Ok::<(CommitFields, Seq<char>), ObjectError>(
            (f, rest),
        ),
{
    let t = seq!['\n'] + rest;
    assert(t[0] == '\n');
    lemma_first_index_is(t, '\n', 0);
    assert(t.take(0) =~= Seq::<char>::empty());
    assert(t.skip(1) =~= rest);
}

/// A key word in front of a text that can stand on a line can stand on a line.
proof fn lemma_key_line_safe(key: Seq<char>, x: Seq<char>)
    requires
        key.len() > 0,
        line_safe(key),
        line_safe(x),
    ensures
        line_safe(key + x),
        (key + x).len() > 0,
{
    let l = key + x;
    assert forall|i: int| 0 <= i < l.len() implies #[trigger] l[i] != '\n' by {
        if i < key.len() {
            assert(l[i] == key[i]);
        } else {
            assert(l[i] == x[i - key.len()]);
        }
    }
    if x.len() > 0 {
        assert(l.last() == x.last());
    } else {
        assert(l.last() == key.last());
    }
}

/// A line made of the tree's key word and `x` sets the tree to `x`.
proof fn lemma_tree_line(x: Seq<char>, f: CommitFields)
    ensures
        read_line(tree_key() + x, f) == Ok::<CommitFields, ObjectError>(
            CommitFields {
                tree: Some(x),
                parent: f.parent,
                author: f.author,
                timestamp: f.timestamp,
            },
        ),
{
    reveal(read_line);
    let t = tree_key() + x;
    assert(t.skip(5) =~= x);
    assert(tree_key() =~= t.subrange(0, 5));
}

/// A line made of the parent's key word and `x` sets the parent to `x`.
proof fn lemma_parent_line(x: Seq<char>, f: CommitFields)
    ensures
        read_line(parent_key() + x, f) == Ok::<CommitFields, ObjectError>(
            CommitFields {
                tree: f.tree,
                parent: Some(x),
                author: f.author,
                timestamp: f.timestamp,
            },
        ),
{
    reveal(read_line);
    let t = parent_key() + x;
    assert(t.skip(7) =~= x);
    assert(parent_key() =~= t.subrange(0, 7));
    assert(t[0] == 'p');
    if tree_key().is_prefix_of(t) {
        assert(tree_key()[0] == t.subrange(0, 5)[0]);
    }
}

/// A line made of the author's key word and `x` sets the author to `x`.
proof fn lemma_author_line(x: Seq<char>, f: CommitFields)
    ensures
        read_line(author_key() + x, f) == Ok::<CommitFields, ObjectError>(
            CommitFields {
                tree: f.tree,
                parent: f.parent,
                author: Some(x),
                timestamp: f.timestamp,
            },
        ),
{
    reveal(read_line);
    let t = author_key() + x;
    assert(t.skip(7) =~= x);
    assert(author_key() =~= t.subrange(0, 7));
    assert(t[0] == 'a');
    if tree_key().is_prefix_of(t) {
        assert(tree_key()[0] == t.subrange(0, 5)[0]);
    }
    if parent_key().is_prefix_of(t) {
        assert(parent_key()[0] == t.subrange(0, 7)[0]);
    }
}

/// A line made of the timestamp's key word and a 64-bit number in decimal sets
/// the timestamp to that number.
proof fn lemma_timestamp_line(n: int, f: CommitFields)
    requires
        i64::MIN <= n <= i64::MAX,
    ensures
        read_line(timestamp_key() + signed_decimal(n), f) == Ok::<CommitFields, ObjectError>(
            CommitFields { tree: f.tree, parent: f.parent, author: f.author, timestamp: Some(n) },
        ),
{
    reveal(read_line);
    let t = timestamp_key() + signed_decimal(n);
    assert(t.skip(10) =~= signed_decimal(n));
    assert(timestamp_key() =~= t.subrange(0, 10));
    assert(t[0] == 't');
    assert(t[1] == 'i');
    if tree_key().is_prefix_of(t) {
        assert(tree_key()[1] == t.subrange(0, 5)[1]);
    }
    if parent_key().is_prefix_of(t) {
        assert(parent_key()[0] == t.subrange(0, 7)[0]);
    }
    if author_key().is_prefix_of(t) {
        assert(author_key()[0] == t.subrange(0, 7)[0]);
    }
    lemma_parse_signed_decimal(n, i64::MIN as int, i64::MAX as int);
}

/// A number in decimal can stand on a line.
proof fn lemma_signed_decimal_safe(n: int)
    ensures
        line_safe(signed_decimal(n)),
{
    let sd = signed_decimal(n);
    let m = (if n < 0 {
        -n
    } else {
        n
    }) as nat;
    let d = decimal(m);
    lemma_decimal_digits(m);
    assert forall|i: int| 0 <= i < sd.len() implies #[trigger] sd[i] != '\n' by {
        if n < 0 {
            if i > 0 {
                assert(sd[i] == d[i - 1]);
                assert(is_digit(d[i - 1]));
            }
        } else {
            assert(is_digit(d[i]));
        }
    }
    assert(sd.last() == d.last());
    assert(is_digit(d[d.len() - 1]));
}

/// What follows the line of the tree in the text of a commit.
spec fn after_tree(c: CommitView) -> Seq<char> {
    match c.parent {
        Some(p) => (parent_key() + p) + seq!['\n'] + after_parent(c),
        None => after_parent(c),
    }
}

/// What follows the line of the parent in the text of a commit.
spec fn after_parent(c: CommitView) -> Seq<char> {
    (author_key() + c.author) + seq!['\n'] + after_author(c)
}

/// What follows the line of the author in the text of a commit.
spec fn after_author(c: CommitView) -> Seq<char> {
    (timestamp_key() + signed_decimal(c.timestamp)) + seq!['\n'] + (seq!['\n'] + c.message)
}

/// The text of a commit is the line of its tree and what follows it.
proof fn lemma_commit_text_shape(c: CommitView)
    ensures
        commit_text(c) == (tree_key() + c.tree) + seq!['\n'] + after_tree(c),
{
    assert(commit_text(c) =~= (tree_key() + c.tree) + seq!['\n'] + after_tree(c));
}

/// The text of a well-formed commit is read back as that commit.
proof fn lemma_parsed_commit(c: CommitView)
    requires
        commit_wf(c),
    ensures
        parsed_commit(commit_text(c)) == Ok::<CommitView, ObjectError>(c),
{
    let f0 = CommitFields { tree: None, parent: None, author: None, timestamp: None };
    let f1 = CommitFields { tree: Some(c.tree), parent: None, author: None, timestamp: None };
    let f2 = CommitFields { tree: Some(c.tree), parent: c.parent, author: None, timestamp: None };
    let f3 = CommitFields {
        tree: Some(c.tree),
        parent: c.parent,
        author: Some(c.author),
        timestamp: None,
    };
    let f4 = CommitFields {
        tree: Some(c.tree),
        parent: c.parent,
        author: Some(c.author),
        timestamp: Some(c.timestamp),
    };
    lemma_commit_text_shape(c);
    assert(line_safe(tree_key()));
    lemma_key_line_safe(tree_key(), c.tree);
    lemma_line_then(tree_key() + c.tree, after_tree(c), f0);
    lemma_tree_line(c.tree, f0);
    assert(read_lines(commit_text(c), f0) == read_lines(after_tree(c), f1));
    match c.parent {
        Some(p) => {
            assert(line_safe(parent_key()));
            lemma_key_line_safe(parent_key(), p);
            lemma_line_then(parent_key() + p, after_parent(c), f1);
            lemma_parent_line(p, f1);
        },
        None => {},
    }
    assert(read_lines(after_tree(c), f1) == read_lines(after_parent(c), f2));
    assert(line_safe(author_key()));
    lemma_key_line_safe(author_key(), c.author);
    lemma_line_then(author_key() + c.author, after_author(c), f2);
    lemma_author_line(c.author, f2);
    assert(read_lines(after_parent(c), f2) == read_lines(after_author(c), f3));
    lemma_signed_decimal_safe(c.timestamp);
    assert(line_safe(timestamp_key()));
    lemma_key_line_safe(timestamp_key(), signed_decimal(c.timestamp));
    lemma_line_then(
        timestamp_key() + signed_decimal(c.timestamp),
        seq!['\n'] + c.message,
        f3,
    );
    lemma_timestamp_line(c.timestamp, f3);
    lemma_blank_line(c.message, f4);
    assert(read_lines(after_author(c), f3) == Ok::<(CommitFields, Seq<char>), ObjectError>(
        (f4, c.message),
    ));
}

/// Every well-formed commit, with a parent or without, comes back from its
/// encoding as the same commit, its message unchanged however many lines it has.
pub proof fn law_commit_round_trip(c: CommitView)
    requires
        commit_wf(c),
        encode_utf8(commit_text(c)).len() <= usize::MAX,
    ensures
        serialized(ObjectView::Commit(c)) matches Ok(bytes) && deserialized(bytes) == Ok::<
            ObjectView,
            ObjectError,
        >(ObjectView::Commit(c)),
{
    let content = encode_utf8(commit_text(c));
    lemma_frame(commit_tag(), content);
    encode_utf8_valid_utf8(commit_text(c));
    encode_utf8_decode_utf8(commit_text(c));
    lemma_parsed_commit(c);
}

} // verus!

//! DKIM signatures: the tag-list grammar of the `DKIM-Signature` header
//! value, the typed signature it parses into, and the verifier that drives
//! canonicalization and hashing of the message against it.

use vstd::prelude::*;
use vstd::string::{StrSliceExecFns, StringExecFns};

use crate::canonicalizer::CanonicalizationType;
use crate::text::{
    dec_value, find_char, is_text_ws, is_text_ws_exec, lemma_split_char_head,
    lemma_split_char_whole, lemma_trim_end_id, lemma_trim_end_take, lemma_trim_start_id,
    lemma_trim_start_skip, parse_u32, parses_as_u32, split_char, str_eq, trim_chars,
    trim_start,
};
use crate::trusted::string_push;

verus! {

/// Why a `DKIM-Signature` value failed to parse.
#[derive(Debug)]
pub enum DkimSignatureParseError {
    MissingTag(String),
    BadTag(String),
    BadCanonicalization(String),
    BadHashAlgorithm(String),
}

/// Why verification could not run to completion.  A body-hash mismatch is
/// not an error but a result.
#[derive(Debug)]
pub enum DkimVerificationError {
    HashError,
}

/// The hash algorithm a signature declares.
#[derive(Debug, Clone, Copy, PartialEq, Eq, Structural)]
pub enum HashAlgorithm {
    Sha1,
    Sha256,
}

/// `s` without its trailing semicolons.
pub open spec fn strip_trailing_semis(s: Seq<char>) -> Seq<char>
    decreases s.len(),
{
    if s.len() > 0 && s.last() == ';' {
        strip_trailing_semis(s.drop_last())
    } else {
        s
    }
}

proof fn lemma_strip_semis_take(s: Seq<char>, i: int)
    requires
        0 <= i <= s.len(),
        forall|j: int| i <= j < s.len() ==> s[j] == ';',
    ensures
        strip_trailing_semis(s) == strip_trailing_semis(s.take(i)),
    decreases s.len() - i,
{
    if i < s.len() {
        assert(s.last() == ';');
        assert(s.drop_last() =~= s.take(s.len() - 1));
        let t = s.take(s.len() - 1);
        assert(forall|j: int| 0 <= j < t.len() ==> #[trigger] t[j] == s[j]);
        lemma_strip_semis_take(t, i);
        assert(t.take(i) =~= s.take(i));
    } else {
        assert(s.take(i) =~= s);
    }
}

/// One `name=value` tag out of one trimmed piece: the name is what stands
/// before the first `=`, the value everything after it.
pub open spec fn parse_tag_spec(piece: Seq<char>) -> Option<(Seq<char>, Seq<char>)> {
    let t = trim_chars(piece);
    match find_char(t, '=') {
        None => None,
        Some(i) => Some((t.take(i as int), t.skip(i as int + 1))),
    }
}

/// The pieces of a tag list: trailing semicolons dropped, split on `;`.
pub open spec fn tag_pieces(s: Seq<char>) -> Seq<Seq<char>> {
    split_char(strip_trailing_semis(s), ';')
}

/// All pieces parse as tags.
pub open spec fn tag_list_ok(s: Seq<char>) -> bool {
    forall|k: int|
        0 <= k < tag_pieces(s).len() ==> parse_tag_spec(#[trigger] tag_pieces(s)[k]) is Some
}

/// The tags of a tag list, in order, when all pieces parse.
pub open spec fn tag_list_spec(s: Seq<char>) -> Seq<(Seq<char>, Seq<char>)> {
    tag_pieces(s).map_values(
        |p: Seq<char>|
            match parse_tag_spec(p) {
                Some(t) => t,
                None => (Seq::<char>::empty(), Seq::<char>::empty()),
            },
    )
}

/// The views of parsed tag pairs.
pub open spec fn tag_views(tags: Seq<(String, String)>) -> Seq<(Seq<char>, Seq<char>)> {
    tags.map_values(|p: (String, String)| (p.0@, p.1@))
}

/// The value of the last tag with this name, as a later tag overwrites an
/// earlier one of the same name.
pub open spec fn tags_lookup(tags: Seq<(Seq<char>, Seq<char>)>, name: Seq<char>) -> Option<
    Seq<char>,
>
    decreases tags.len(),
{
    if tags.len() == 0 {
        None
    } else if tags.last().0 == name {
        Some(tags.last().1)
    } else {
        tags_lookup(tags.drop_last(), name)
    }
}

/// Split a `DKIM-Signature` value into its tags.  Fails on the first piece
/// that has no `=`, naming that piece.
#[verifier::loop_isolation(false)]
#[verifier::rlimit(100)]
#[verifier::spinoff_prover]
pub fn parse_dkim_signature(dkim_signature: &str) -> (r: Result<
    Vec<(String, String)>,
    DkimSignatureParseError,
>)
    ensures
        r is Ok <==> tag_list_ok(dkim_signature@),
        r matches Ok(tags) ==> tag_views(tags@) == tag_list_spec(dkim_signature@),
        r matches Err(e) ==> e matches DkimSignatureParseError::BadTag(t) && exists|k: int|
            0 <= k < tag_pieces(dkim_signature@).len() && parse_tag_spec(
                #[trigger] tag_pieces(dkim_signature@)[k],
            ) is None && t@ == trim_chars(tag_pieces(dkim_signature@)[k]),
{
    let s = dkim_signature;
    let ghost sv = s@;
    let n0 = s.unicode_len();
    let mut end: usize = n0;
    while end > 0 && s.get_char(end - 1) == ';'
        invariant
            end <= n0,
            n0 == sv.len(),
            forall|j: int| end <= j < n0 ==> sv[j] == ';',
        decreases end,
    {
        end = end - 1;
    }
    proof {
        lemma_strip_semis_take(sv, end as int);
        if end > 0 {
            assert(sv.take(end as int).last() != ';');
        }
        assert(strip_trailing_semis(sv.take(end as int)) == sv.take(end as int));
    }
    let ghost stripped = sv.take(end as int);
    let ghost pieces = split_char(stripped, ';');

    let mut tags: Vec<(String, String)> = Vec::new();
    let mut start: usize = 0;
    let mut done: bool = false;
    proof {
        assert(stripped.skip(0) =~= stripped);
        assert(pieces.skip(0) =~= pieces);
        assert(tag_views(tags@) =~= Seq::<(Seq<char>, Seq<char>)>::empty());
        assert(pieces.take(0) =~= Seq::<Seq<char>>::empty());
    }
    while !done
        invariant
            n0 == sv.len(),
            end <= n0,
            stripped == sv.take(end as int),
            pieces == split_char(stripped, ';'),
            start <= end,
            !done ==> split_char(stripped.skip(start as int), ';') == pieces.skip(
                tags@.len() as int,
            ),
            tags@.len() <= pieces.len(),
            done ==> tags@.len() == pieces.len(),
            forall|k: int|
                0 <= k < tags@.len() ==> parse_tag_spec(#[trigger] pieces[k]) is Some,
            tag_views(tags@) =~= pieces.take(tags@.len() as int).map_values(
                |p: Seq<char>|
                    match parse_tag_spec(p) {
                        Some(t) => t,
                        None => (Seq::<char>::empty(), Seq::<char>::empty()),
                    },
            ),
        decreases end - start + (if done {
            0int
        } else {
            1int
        }),
    {
        let ghost rest = stripped.skip(start as int);
        // Find the end of this piece.
        let mut k: usize = start;
        while k < end && s.get_char(k) != ';'
            invariant
                start <= k <= end,
                end <= n0,
                n0 == sv.len(),
                forall|j: int| start <= j < k ==> sv[j] != ';',
            decreases end - k,
        {
            k = k + 1;
        }
        let ghost piece = sv.subrange(start as int, k as int);
        proof {
            assert(forall|j: int| 0 <= j < rest.len() ==> #[trigger] rest[j] == sv[start + j]);
            if k < end {
                assert(rest[k - start as int] == ';');
                assert(forall|j: int| 0 <= j < k - start as int ==> rest[j] != ';');
                lemma_split_char_head(rest, ';', k - start as int);
                assert(rest.take(k - start as int) =~= piece);
                assert(rest.skip(k - start as int + 1) =~= stripped.skip(k as int + 1));
            } else {
                assert(forall|j: int| 0 <= j < rest.len() ==> rest[j] != ';');
                lemma_split_char_whole(rest, ';');
                assert(rest =~= piece);
            }
            assert(pieces.skip(tags@.len() as int)[0] == piece);
            assert(pieces[tags@.len() as int] == piece);
        }

        // Trim the piece.
        let mut a: usize = start;
        while a < k && is_text_ws_exec(s.get_char(a))
            invariant
                start <= a <= k,
                k <= n0,
                n0 == sv.len(),
                forall|j: int| start <= j < a ==> is_text_ws(sv[j]),
            decreases k - a,
        {
            a = a + 1;
        }
        let mut b: usize = k;
        while b > a && is_text_ws_exec(s.get_char(b - 1))
            invariant
                a <= b <= k,
                k <= n0,
                n0 == sv.len(),
                forall|j: int| b <= j < k ==> is_text_ws(sv[j]),
            decreases b,
        {
            b = b - 1;
        }
        let ghost trimmed = sv.subrange(a as int, b as int);
        proof {
            assert(forall|j: int| 0 <= j < piece.len() ==> #[trigger] piece[j] == sv[start + j]);
            assert(forall|j: int| 0 <= j < a - start ==> is_text_ws(#[trigger] piece[j]));
            lemma_trim_start_skip(piece, a - start as int);
            let after_start = piece.skip(a - start as int);
            assert(after_start =~= sv.subrange(a as int, k as int));
            if a < k {
                assert(!is_text_ws(after_start[0]));
            }
            lemma_trim_start_id(after_start);
            assert(trim_start(piece) == after_start);
            assert(forall|j: int|
                b - a <= j < after_start.len() ==> is_text_ws(#[trigger] after_start[j]));
            lemma_trim_end_take(after_start, b - a as int);
            assert(after_start.take(b - a as int) =~= trimmed);
            if b > a {
                assert(!is_text_ws(trimmed.last()));
            }
            lemma_trim_end_id(trimmed);
            assert(trim_chars(piece) == trimmed);
        }

        // Find the `=` inside the trimmed piece.
        let mut e: usize = a;
        while e < b && s.get_char(e) != '='
            invariant
                a <= e <= b,
                b <= n0,
                n0 == sv.len(),
                forall|j: int| a <= j < e ==> sv[j] != '=',
            decreases b - e,
        {
            e = e + 1;
        }
        proof {
            assert(forall|j: int|
                0 <= j < trimmed.len() ==> #[trigger] trimmed[j] == sv[a + j]);
        }
        if e == b {
            proof {
                crate::text::lemma_find_char_none(trimmed, '=');
                assert(parse_tag_spec(piece) is None);
            }
            let bad = s.substring_char(a, b);
            return Err(DkimSignatureParseError::BadTag(String::from_str(bad)));
        }
        proof {
            assert(trimmed[e - a as int] == '=');
            assert(forall|j: int| 0 <= j < e - a as int ==> trimmed[j] != '=');
            crate::text::lemma_find_char_from_witness(trimmed, '=', e - a as int);
            assert(trimmed.take(e - a as int) =~= sv.subrange(a as int, e as int));
            assert(trimmed.skip(e - a as int + 1) =~= sv.subrange(e as int + 1, b as int));
        }
        let name = String::from_str(s.substring_char(a, e));
        let value = String::from_str(s.substring_char(e + 1, b));
        let ghost tags_pre = tags@;
        tags.push((name, value));
        proof {
            assert(parse_tag_spec(piece) == Some((name@, value@)));
            assert(tag_views(tags@) =~= tag_views(tags_pre).push((name@, value@)));
            assert(tag_views(tags@) =~= pieces.take(tags@.len() as int).map_values(
                |p: Seq<char>|
                    match parse_tag_spec(p) {
                        Some(t) => t,
                        None => (Seq::<char>::empty(), Seq::<char>::empty()),
                    },
            ));
        }
        if k == end {
            done = true;
            proof {
                assert(pieces.skip(tags_pre.len() as int) =~= seq![piece]);
                assert(tags@.len() == pieces.len());
            }
        } else {
            proof {
                let tail = split_char(stripped.skip(k as int + 1), ';');
                assert(rest.take(k - start as int) == piece);
                assert(pieces.skip(tags_pre.len() as int) == seq![piece] + tail);
                assert((seq![piece] + tail).skip(1) =~= tail);
                assert(pieces.skip(tags_pre.len() as int).skip(1) =~= pieces.skip(
                    tags_pre.len() as int + 1,
                ));
                assert(split_char(stripped.skip(k as int + 1), ';') == pieces.skip(
                    tags@.len() as int,
                ));
            }
            start = k + 1;
        }
    }
    proof {
        assert(pieces.take(pieces.len() as int) =~= pieces);
        assert(tag_list_ok(sv));
        assert(tag_views(tags@) =~= tag_list_spec(sv));
    }
    Ok(tags)
}

/// Trim one piece and split it at its first `=`; a piece without one is
/// refused, and named in the error.
#[verifier::loop_isolation(false)]
pub fn parse_dkim_tag(tag: &str) -> (r: Result<(String, String), DkimSignatureParseError>)
    ensures
        r is Ok <==> parse_tag_spec(tag@) is Some,
        r matches Ok(p) ==> parse_tag_spec(tag@) == Some((p.0@, p.1@)),
        r matches Err(e) ==> e matches DkimSignatureParseError::BadTag(t) && t@ == trim_chars(
            tag@,
        ),
{
    let n = tag.unicode_len();
    let mut a: usize = 0;
    while a < n && is_text_ws_exec(tag.get_char(a))
        invariant
            a <= n,
            n == tag@.len(),
            forall|j: int| 0 <= j < a ==> is_text_ws(tag@[j]),
        decreases n - a,
    {
        a = a + 1;
    }
    let mut b: usize = n;
    while b > a && is_text_ws_exec(tag.get_char(b - 1))
        invariant
            a <= b <= n,
            n == tag@.len(),
            forall|j: int| b <= j < n ==> is_text_ws(tag@[j]),
        decreases b,
    {
        b = b - 1;
    }
    let ghost trimmed = tag@.subrange(a as int, b as int);
    proof {
        lemma_trim_start_skip(tag@, a as int);
        let after_start = tag@.skip(a as int);
        if a < n {
            assert(!is_text_ws(after_start[0]));
        }
        lemma_trim_start_id(after_start);
        assert(forall|j: int|
            0 <= j < after_start.len() ==> #[trigger] after_start[j] == tag@[a + j]);
        assert(forall|j: int|
            b - a <= j < after_start.len() ==> is_text_ws(#[trigger] after_start[j]));
        lemma_trim_end_take(after_start, b - a as int);
        assert(after_start.take(b - a as int) =~= trimmed);
        if b > a {
            assert(!is_text_ws(trimmed.last()));
        }
        lemma_trim_end_id(trimmed);
        assert(trim_chars(tag@) == trimmed);
        assert(forall|j: int| 0 <= j < trimmed.len() ==> #[trigger] trimmed[j] == tag@[a + j]);
    }
    let mut e: usize = a;
    while e < b && tag.get_char(e) != '='
        invariant
            a <= e <= b,
            b <= n,
            n == tag@.len(),
            forall|j: int| a <= j < e ==> tag@[j] != '=',
        decreases b - e,
    {
        e = e + 1;
    }
    if e == b {
        proof {
            crate::text::lemma_find_char_none(trimmed, '=');
        }
        return Err(DkimSignatureParseError::BadTag(String::from_str(tag.substring_char(a, b))));
    }
    proof {
        assert(trimmed[e - a as int] == '=');
        assert(forall|j: int| 0 <= j < e - a as int ==> trimmed[j] != '=');
        crate::text::lemma_find_char_from_witness(trimmed, '=', e - a as int);
        assert(trimmed.take(e - a as int) =~= tag@.subrange(a as int, e as int));
        assert(trimmed.skip(e - a as int + 1) =~= tag@.subrange(e as int + 1, b as int));
    }
    let name = String::from_str(tag.substring_char(a, e));
    let value = String::from_str(tag.substring_char(e + 1, b));
    Ok((name, value))
}

/// A tag pair that the wire form can carry back unchanged: no separator in
/// either part, no `=` in the name, and no whitespace at the very ends that
/// trimming would eat.
pub open spec fn emittable(p: (Seq<char>, Seq<char>)) -> bool {
    &&& forall|i: int| 0 <= i < p.0.len() ==> p.0[i] != ';' && #[trigger] p.0[i] != '='
    &&& forall|i: int| 0 <= i < p.1.len() ==> #[trigger] p.1[i] != ';'
    &&& (p.0.len() > 0 ==> !is_text_ws(p.0[0]))
    &&& (p.1.len() > 0 ==> !is_text_ws(p.1.last()))
}

/// One tag back on the wire.
pub open spec fn emit_tag(p: (Seq<char>, Seq<char>)) -> Seq<char> {
    p.0 + seq!['='] + p.1
}

/// A tag list back on the wire, `;`-joined.
pub open spec fn emit_tags(tags: Seq<(Seq<char>, Seq<char>)>) -> Seq<char>
    decreases tags.len(),
{
    if tags.len() == 0 {
        Seq::empty()
    } else if tags.len() == 1 {
        emit_tag(tags[0])
    } else {
        emit_tag(tags[0]) + seq![';'] + emit_tags(tags.drop_first())
    }
}

proof fn lemma_emit_tag_shape(p: (Seq<char>, Seq<char>))
    requires
        emittable(p),
    ensures
        forall|i: int| 0 <= i < emit_tag(p).len() ==> #[trigger] emit_tag(p)[i] != ';',
        parse_tag_spec(emit_tag(p)) == Some(p),
        emit_tag(p).len() > 0,
        !is_text_ws(emit_tag(p)[0]),
        !is_text_ws(emit_tag(p).last()),
        emit_tag(p).last() != ';',
{
    let t = emit_tag(p);
    let n = p.0.len() as int;
    assert(forall|i: int| 0 <= i < n ==> t[i] == p.0[i]);
    assert(t[n] == '=');
    assert(forall|i: int| n + 1 <= i < t.len() ==> t[i] == p.1[i - n - 1]);
    lemma_trim_start_id(t);
    lemma_trim_end_id(t);
    assert(trim_chars(t) == t);
    crate::text::lemma_find_char_from_witness(t, '=', n);
    assert(t.take(n) =~= p.0);
    assert(t.skip(n + 1) =~= p.1);
}

/// The signature tag parser round-trips under construction: a list of
/// emittable tags, put back on the wire in whatever order the list has and
/// joined as `name=value;`, parses to exactly that list — so the logical
/// map, under last-wins lookup, is recovered.
pub proof fn lemma_tag_round_trip(tags: Seq<(Seq<char>, Seq<char>)>)
    requires
        tags.len() > 0,
        forall|k: int| 0 <= k < tags.len() ==> emittable(#[trigger] tags[k]),
    ensures
        tag_list_ok(emit_tags(tags)),
        tag_list_spec(emit_tags(tags)) == tags,
        tag_list_ok(emit_tags(tags) + seq![';']),
        tag_list_spec(emit_tags(tags) + seq![';']) == tags,
    decreases tags.len(),
{
    let w = emit_tags(tags);
    lemma_emit_tag_shape(tags[0]);
    if tags.len() == 1 {
        assert(w == emit_tag(tags[0]));
        lemma_trim_end_id(w);
        assert(strip_trailing_semis(w) == w);
        lemma_split_char_whole(w, ';');
        assert(tag_pieces(w) == seq![w]);
        assert(tag_list_spec(w) =~= tags);
    } else {
        let rest = tags.drop_first();
        lemma_tag_round_trip(rest);
        let head = emit_tag(tags[0]);
        let tail = emit_tags(rest);
        assert(w == head + seq![';'] + tail);
        // The emitted text of the remaining tags is nonempty and does not
        // end in a separator, so nothing is stripped from the whole.
        lemma_emit_tags_last(rest);
        assert(w.last() == tail.last());
        lemma_strip_semis_id(w);
        assert(forall|j: int| 0 <= j < head.len() ==> #[trigger] w[j] == head[j]);
        assert(w[head.len() as int] == ';');
        lemma_split_char_head(w, ';', head.len() as int);
        assert(w.take(head.len() as int) =~= head);
        assert(w.skip(head.len() as int + 1) =~= tail);
        assert(strip_trailing_semis(tail) == tail) by {
            lemma_strip_semis_id(tail);
        }
        assert(tag_pieces(w) == seq![head] + tag_pieces(tail));
        assert(tag_pieces(tail).len() == rest.len()) by {
            assert(tag_list_spec(tail).len() == tag_pieces(tail).len());
        }
        assert(tag_pieces(w).len() == tags.len());
        assert forall|k: int| 0 <= k < tags.len() implies parse_tag_spec(
            #[trigger] tag_pieces(w)[k],
        ) == Some(tags[k]) by {
            if k == 0 {
                assert(tag_pieces(w)[0] == head);
            } else {
                assert(tag_pieces(w)[k] == tag_pieces(tail)[k - 1]);
                assert(tag_list_spec(tail)[k - 1] == rest[k - 1]);
                assert(parse_tag_spec(tag_pieces(tail)[k - 1]) is Some);
                assert(rest[k - 1] == tags[k]);
            }
        }
        assert(tag_list_ok(w));
        assert(tag_list_spec(w) =~= tags) by {
            assert(forall|k: int|
                0 <= k < tags.len() ==> #[trigger] tag_list_spec(w)[k] == tags[k]);
        }
    }
    // The trailing-semicolon form strips to the same text.
    let w2 = w + seq![';'];
    lemma_emit_tags_last(tags);
    assert(w2.drop_last() =~= w);
    assert(strip_trailing_semis(w2) == strip_trailing_semis(w));
    lemma_strip_semis_id(w);
    assert(tag_pieces(w2) == tag_pieces(w));
    assert(tag_list_spec(w2) =~= tag_list_spec(w));
}

/// The logical map survives the round trip: looking any name up in what
/// the re-emitted wire form parses to gives what the original tag list
/// gives, whatever order that list carries its tags in.
pub proof fn lemma_tag_round_trip_lookup(
    tags: Seq<(Seq<char>, Seq<char>)>,
    name: Seq<char>,
)
    requires
        tags.len() > 0,
        forall|k: int| 0 <= k < tags.len() ==> emittable(#[trigger] tags[k]),
    ensures
        tags_lookup(tag_list_spec(emit_tags(tags)), name) == tags_lookup(tags, name),
        tags_lookup(tag_list_spec(emit_tags(tags) + seq![';']), name) == tags_lookup(
            tags,
            name,
        ),
{
    lemma_tag_round_trip(tags);
}

/// A nonempty emitted tag list ends with the last tag's last character,
/// which is no semicolon.
proof fn lemma_emit_tags_last(tags: Seq<(Seq<char>, Seq<char>)>)
    requires
        tags.len() > 0,
        forall|k: int| 0 <= k < tags.len() ==> emittable(#[trigger] tags[k]),
    ensures
        emit_tags(tags).len() > 0,
        emit_tags(tags).last() != ';',
    decreases tags.len(),
{
    lemma_emit_tag_shape(tags[0]);
    if tags.len() > 1 {
        let rest = tags.drop_first();
        lemma_emit_tags_last(rest);
        assert(emit_tags(tags).last() == emit_tags(rest).last());
    }
}

/// Text that does not end in `;` strips to itself.
proof fn lemma_strip_semis_id(s: Seq<char>)
    requires
        s.len() == 0 || s.last() != ';',
    ensures
        strip_trailing_semis(s) == s,
{
}

/// The view of an optional string.
pub open spec fn opt_view(o: Option<String>) -> Option<Seq<char>> {
    match o {
        Some(s) => Some(s@),
        None => None,
    }
}

/// Look a tag up by name; the last tag of that name wins.
#[verifier::loop_isolation(false)]
pub fn unwrap_tag_value(tags: &Vec<(String, String)>, tag_name: &str) -> (r: Option<String>)
    ensures
        opt_view(r) == tags_lookup(tag_views(tags@), tag_name@),
{
    let ghost tv = tag_views(tags@);
    let mut i: usize = tags.len();
    proof {
        assert(tv.take(i as int) =~= tv);
    }
    while i > 0
        invariant
            i <= tags.len(),
            tv == tag_views(tags@),
            tags_lookup(tv, tag_name@) == tags_lookup(tv.take(i as int), tag_name@),
        decreases i,
    {
        i = i - 1;
        proof {
            assert(tv.take(i + 1 as int).drop_last() =~= tv.take(i as int));
            assert(tv.take(i + 1 as int).last() == tv[i as int]);
            assert(tv[i as int].0 == tags@[i as int].0@);
        }
        if str_eq(tags[i].0.as_str(), tag_name) {
            return Some(tags[i].1.clone());
        }
    }
    proof {
        assert(tv.take(0) =~= Seq::<(Seq<char>, Seq<char>)>::empty());
    }
    None
}

/// An unsigned integer tag, when present and in range.
pub open spec fn uint_of_tag(tags: Seq<(Seq<char>, Seq<char>)>, name: Seq<char>) -> Option<int> {
    match tags_lookup(tags, name) {
        Some(v) => if parses_as_u32(v) {
            Some(dec_value(v))
        } else {
            None
        },
        None => None,
    }
}

/// An integer tag; absence and an unparsable value are both reported as a
/// missing tag.
pub fn unwrap_uint_tag_value(tags: &Vec<(String, String)>, tag_name: &str) -> (r: Result<
    u32,
    DkimSignatureParseError,
>)
    ensures
        r is Ok <==> uint_of_tag(tag_views(tags@), tag_name@) is Some,
        r matches Ok(v) ==> uint_of_tag(tag_views(tags@), tag_name@) == Some(v as int),
        r matches Err(e) ==> e matches DkimSignatureParseError::MissingTag(t) && t@ == tag_name@,
{
    match unwrap_tag_value(tags, tag_name) {
        Some(v) => match parse_u32(v.as_str()) {
            Some(n) => Ok(n),
            None => Err(DkimSignatureParseError::MissingTag(String::from_str(tag_name))),
        },
        None => Err(DkimSignatureParseError::MissingTag(String::from_str(tag_name))),
    }
}

/// A string tag; absence is a missing tag.
pub fn unwrap_string_tag_value(tags: &Vec<(String, String)>, tag_name: &str) -> (r: Result<
    String,
    DkimSignatureParseError,
>)
    ensures
        r is Ok <==> tags_lookup(tag_views(tags@), tag_name@) is Some,
        r matches Ok(v) ==> tags_lookup(tag_views(tags@), tag_name@) == Some(v@),
        r matches Err(e) ==> e matches DkimSignatureParseError::MissingTag(t) && t@ == tag_name@,
{
    match unwrap_tag_value(tags, tag_name) {
        Some(v) => Ok(v),
        None => Err(DkimSignatureParseError::MissingTag(String::from_str(tag_name))),
    }
}

/// The two recognized canonicalization names.
pub open spec fn map_canon_spec(s: Seq<char>) -> Option<CanonicalizationType> {
    if s == "simple"@ {
        Some(CanonicalizationType::Simple)
    } else if s == "relaxed"@ {
        Some(CanonicalizationType::Relaxed)
    } else {
        None
    }
}

#[verifier::loop_isolation(false)]
pub fn map_canon(s: &str) -> (r: Result<CanonicalizationType, DkimSignatureParseError>)
    ensures
        r is Ok <==> map_canon_spec(s@) is Some,
        r matches Ok(t) ==> map_canon_spec(s@) == Some(t),
        r matches Err(e) ==> e matches DkimSignatureParseError::BadCanonicalization(t) && t@
            == s@,
{
    if str_eq(s, "simple") {
        Ok(CanonicalizationType::Simple)
    } else if str_eq(s, "relaxed") {
        Ok(CanonicalizationType::Relaxed)
    } else {
        Err(DkimSignatureParseError::BadCanonicalization(String::from_str(s)))
    }
}

/// The header half of a `c=` value and, after a `/`, its body half.
pub open spec fn canon_halves(v: Seq<char>) -> (Seq<char>, Option<Seq<char>>) {
    match find_char(v, '/') {
        None => (v, None),
        Some(i) => (v.take(i as int), Some(v.skip(i as int + 1))),
    }
}

/// What a `c=` tag means: absent, both default to simple; a lone header
/// half leaves the body simple; anything unrecognized is refused.
pub open spec fn canon_pair_spec(c: Option<Seq<char>>) -> Option<(
    CanonicalizationType,
    CanonicalizationType,
)> {
    match c {
        None => Some((CanonicalizationType::Simple, CanonicalizationType::Simple)),
        Some(v) => {
            let halves = canon_halves(v);
            match map_canon_spec(halves.0) {
                None => None,
                Some(hc) => match halves.1 {
                    None => Some((hc, CanonicalizationType::Simple)),
                    Some(bv) => match map_canon_spec(bv) {
                        Some(bc) => Some((hc, bc)),
                        None => None,
                    },
                },
            }
        },
    }
}

/// The half of a bad `c=` value that is to blame.
pub open spec fn bad_canon_payload(v: Seq<char>) -> Seq<char> {
    let halves = canon_halves(v);
    if map_canon_spec(halves.0) is None {
        halves.0
    } else {
        match halves.1 {
            Some(bv) => bv,
            None => halves.0,
        }
    }
}

/// Read the canonicalization pair off the parsed tags.
#[verifier::loop_isolation(false)]
pub fn parse_canonicalization(tags: &Vec<(String, String)>) -> (r: Result<
    (CanonicalizationType, CanonicalizationType),
    DkimSignatureParseError,
>)
    ensures
        r is Ok <==> canon_pair_spec(tags_lookup(tag_views(tags@), "c"@)) is Some,
        r matches Ok(p) ==> canon_pair_spec(tags_lookup(tag_views(tags@), "c"@)) == Some(p),
        r matches Err(e) ==> e matches DkimSignatureParseError::BadCanonicalization(t)
            && tags_lookup(tag_views(tags@), "c"@) matches Some(v) && t@ == bad_canon_payload(v),
{
    match unwrap_tag_value(tags, "c") {
        None => Ok((CanonicalizationType::Simple, CanonicalizationType::Simple)),
        Some(c) => {
            let cs = c.as_str();
            let n = cs.unicode_len();
            let mut i: usize = 0;
            while i < n && cs.get_char(i) != '/'
                invariant
                    i <= n,
                    n == cs@.len(),
                    forall|j: int| 0 <= j < i ==> cs@[j] != '/',
                decreases n - i,
            {
                i = i + 1;
            }
            if i == n {
                proof {
                    crate::text::lemma_find_char_none(cs@, '/');
                }
                match map_canon(cs) {
                    Ok(hc) => Ok((hc, CanonicalizationType::Simple)),
                    Err(e) => Err(e),
                }
            } else {
                proof {
                    crate::text::lemma_find_char_from_witness(cs@, '/', i as int);
                    assert(cs@.take(i as int) =~= cs@.subrange(0, i as int));
                    assert(cs@.skip(i as int + 1) =~= cs@.subrange(i as int + 1, n as int));
                }
                let head = cs.substring_char(0, i);
                let body = cs.substring_char(i + 1, n);
                match map_canon(head) {
                    Err(e) => Err(e),
                    Ok(hc) => match map_canon(body) {
                        Err(e) => Err(e),
                        Ok(bc) => Ok((hc, bc)),
                    },
                }
            }
        },
    }
}

/// The two recognized signing algorithms.
pub open spec fn hash_alg_spec(s: Seq<char>) -> Option<HashAlgorithm> {
    if s == "rsa-sha256"@ {
        Some(HashAlgorithm::Sha256)
    } else if s == "rsa-sha1"@ {
        Some(HashAlgorithm::Sha1)
    } else {
        None
    }
}

/// `s` with every whitespace character removed, as the `b=` and `bh=`
/// tags allow folding whitespace.
pub open spec fn strip_all_ws(s: Seq<char>) -> Seq<char>
    decreases s.len(),
{
    if s.len() == 0 {
        Seq::empty()
    } else {
        strip_all_ws(s.drop_last()) + if is_text_ws(s.last()) {
            Seq::<char>::empty()
        } else {
            seq![s.last()]
        }
    }
}

#[verifier::loop_isolation(false)]
fn remove_all_ws(s: &String) -> (r: String)
    ensures
        r@ == strip_all_ws(s@),
{
    let ss = s.as_str();
    let n = ss.unicode_len();
    let mut r = String::new();
    let mut i: usize = 0;
    while i < n
        invariant
            i <= n,
            n == ss@.len(),
            r@ == strip_all_ws(ss@.take(i as int)),
        decreases n - i,
    {
        let c = ss.get_char(i);
        if !is_text_ws_exec(c) {
            string_push(&mut r, c);
        }
        proof {
            assert(ss@.take(i + 1 as int).drop_last() =~= ss@.take(i as int));
            assert(ss@.take(i + 1 as int).last() == ss@[i as int]);
            if !is_text_ws(c) {
                assert(r@ =~= strip_all_ws(ss@.take(i as int)) + seq![c]);
            } else {
                assert(r@ =~= strip_all_ws(ss@.take(i as int)) + Seq::<char>::empty());
            }
        }
        i = i + 1;
    }
    proof {
        assert(ss@.take(n as int) =~= ss@);
    }
    r
}

/// Split a `h=` value on `:`, keeping order and duplicates.
#[verifier::loop_isolation(false)]
#[verifier::rlimit(100)]
fn split_colons(s: &String) -> (r: Vec<String>)
    ensures
        r@.map_values(|x: String| x@) == split_char(s@, ':'),
{
    let ss = s.as_str();
    let n = ss.unicode_len();
    let ghost pieces = split_char(ss@, ':');
    let mut parts: Vec<String> = Vec::new();
    let mut start: usize = 0;
    let mut done: bool = false;
    proof {
        assert(ss@.skip(0) =~= ss@);
        assert(pieces.skip(0) =~= pieces);
        assert(parts@.map_values(|x: String| x@) =~= Seq::<Seq<char>>::empty());
        assert(pieces.take(0) =~= Seq::<Seq<char>>::empty());
    }
    while !done
        invariant
            n == ss@.len(),
            start <= n,
            pieces == split_char(ss@, ':'),
            !done ==> split_char(ss@.skip(start as int), ':') == pieces.skip(
                parts@.len() as int,
            ),
            parts@.len() <= pieces.len(),
            done ==> parts@.len() == pieces.len(),
            parts@.map_values(|x: String| x@) =~= pieces.take(parts@.len() as int),
        decreases n - start + (if done {
            0int
        } else {
            1int
        }),
    {
        let ghost rest = ss@.skip(start as int);
        let mut k: usize = start;
        while k < n && ss.get_char(k) != ':'
            invariant
                start <= k <= n,
                n == ss@.len(),
                forall|j: int| start <= j < k ==> ss@[j] != ':',
            decreases n - k,
        {
            k = k + 1;
        }
        let ghost piece = ss@.subrange(start as int, k as int);
        proof {
            assert(forall|j: int| 0 <= j < rest.len() ==> #[trigger] rest[j] == ss@[start + j]);
            if k < n {
                assert(rest[k - start as int] == ':');
                assert(forall|j: int| 0 <= j < k - start as int ==> rest[j] != ':');
                lemma_split_char_head(rest, ':', k - start as int);
                assert(rest.take(k - start as int) =~= piece);
                assert(rest.skip(k - start as int + 1) =~= ss@.skip(k as int + 1));
            } else {
                assert(forall|j: int| 0 <= j < rest.len() ==> rest[j] != ':');
                lemma_split_char_whole(rest, ':');
                assert(rest =~= piece);
            }
            assert(pieces.skip(parts@.len() as int)[0] == piece);
            assert(pieces[parts@.len() as int] == piece);
        }
        let ghost parts_pre = parts@;
        parts.push(String::from_str(ss.substring_char(start, k)));
        proof {
            assert(parts@.map_values(|x: String| x@) =~= pieces.take(parts@.len() as int));
        }
        if k == n {
            done = true;
            proof {
                assert(pieces.skip(parts_pre.len() as int) =~= seq![piece]);
            }
        } else {
            proof {
                let tail = split_char(ss@.skip(k as int + 1), ':');
                assert(rest.take(k - start as int) == piece);
                assert(pieces.skip(parts_pre.len() as int) == seq![piece] + tail);
                assert((seq![piece] + tail).skip(1) =~= tail);
                assert(pieces.skip(parts_pre.len() as int).skip(1) =~= pieces.skip(
                    parts_pre.len() as int + 1,
                ));
                assert(split_char(ss@.skip(k as int + 1), ':') == pieces.skip(
                    parts@.len() as int,
                ));
            }
            start = k + 1;
        }
    }
    proof {
        assert(pieces.take(pieces.len() as int) =~= pieces);
    }
    parts
}


/// A parsed `DKIM-Signature` header value.
#[derive(Debug)]
pub struct DkimSignature {
    pub version: u32,
    pub hash_type: HashAlgorithm,
    pub signature: String,
    pub body_hash: String,
    pub sdid: String,
    pub header_fields: Vec<String>,
    pub selector: String,
    pub timestamp: Option<u32>,
    pub expiration: Option<u32>,
    pub header_canon: CanonicalizationType,
    pub body_canon: CanonicalizationType,
    pub auid: Option<String>,
    pub body_length: Option<u32>,
    pub query_methods: Option<String>,
    pub copied_header_fields: Option<String>,
}

/// The required tags are present and well formed.
pub open spec fn sig_tags_ok(tags: Seq<(Seq<char>, Seq<char>)>) -> bool {
    &&& canon_pair_spec(tags_lookup(tags, "c"@)) is Some
    &&& match tags_lookup(tags, "a"@) {
        Some(a) => hash_alg_spec(a) is Some,
        None => false,
    }
    &&& uint_of_tag(tags, "v"@) is Some
    &&& tags_lookup(tags, "b"@) is Some
    &&& tags_lookup(tags, "bh"@) is Some
    &&& tags_lookup(tags, "d"@) is Some
    &&& tags_lookup(tags, "h"@) is Some
    &&& tags_lookup(tags, "s"@) is Some
}

/// An optional unsigned field holds the tag's number exactly when the tag
/// is present and parses.
pub open spec fn opt_uint_matches(field: Option<u32>, v: Option<int>) -> bool {
    match v {
        Some(n) => field == Some(n as u32),
        None => field is None,
    }
}

/// Every field of `sig` is what the tags say.
pub open spec fn sig_matches(sig: DkimSignature, tags: Seq<(Seq<char>, Seq<char>)>) -> bool {
    &&& canon_pair_spec(tags_lookup(tags, "c"@)) == Some((sig.header_canon, sig.body_canon))
    &&& match tags_lookup(tags, "a"@) {
        Some(a) => hash_alg_spec(a) == Some(sig.hash_type),
        None => false,
    }
    &&& uint_of_tag(tags, "v"@) == Some(sig.version as int)
    &&& match tags_lookup(tags, "b"@) {
        Some(b) => sig.signature@ == strip_all_ws(b),
        None => false,
    }
    &&& match tags_lookup(tags, "bh"@) {
        Some(bh) => sig.body_hash@ == strip_all_ws(bh),
        None => false,
    }
    &&& match tags_lookup(tags, "d"@) {
        Some(d) => sig.sdid@ == d,
        None => false,
    }
    &&& match tags_lookup(tags, "h"@) {
        Some(h) => sig.header_fields@.map_values(|x: String| x@) == split_char(h, ':'),
        None => false,
    }
    &&& match tags_lookup(tags, "s"@) {
        Some(sel) => sig.selector@ == sel,
        None => false,
    }
    &&& opt_uint_matches(sig.timestamp, uint_of_tag(tags, "t"@))
    &&& opt_uint_matches(sig.expiration, uint_of_tag(tags, "x"@))
    &&& opt_uint_matches(sig.body_length, uint_of_tag(tags, "l"@))
    &&& opt_view(sig.auid) == tags_lookup(tags, "i"@)
    &&& opt_view(sig.query_methods) == tags_lookup(tags, "q"@)
    &&& opt_view(sig.copied_header_fields) == tags_lookup(tags, "z"@)
}

/// Which error a well-split tag list draws, in the order the fields are
/// read: canonicalization, algorithm, then each required tag.
pub open spec fn err_matches(e: DkimSignatureParseError, tags: Seq<(Seq<char>, Seq<char>)>) -> bool {
    if canon_pair_spec(tags_lookup(tags, "c"@)) is None {
        e matches DkimSignatureParseError::BadCanonicalization(t) && tags_lookup(tags, "c"@)
            matches Some(v) && t@ == bad_canon_payload(v)
    } else if tags_lookup(tags, "a"@) is None {
        e matches DkimSignatureParseError::MissingTag(t) && t@ == "a"@
    } else if hash_alg_spec(tags_lookup(tags, "a"@).unwrap()) is None {
        e matches DkimSignatureParseError::BadHashAlgorithm(t) && Some(t@) == tags_lookup(
            tags,
            "a"@,
        )
    } else if uint_of_tag(tags, "v"@) is None {
        e matches DkimSignatureParseError::MissingTag(t) && t@ == "v"@
    } else if tags_lookup(tags, "b"@) is None {
        e matches DkimSignatureParseError::MissingTag(t) && t@ == "b"@
    } else if tags_lookup(tags, "bh"@) is None {
        e matches DkimSignatureParseError::MissingTag(t) && t@ == "bh"@
    } else if tags_lookup(tags, "d"@) is None {
        e matches DkimSignatureParseError::MissingTag(t) && t@ == "d"@
    } else if tags_lookup(tags, "h"@) is None {
        e matches DkimSignatureParseError::MissingTag(t) && t@ == "h"@
    } else if tags_lookup(tags, "s"@) is None {
        e matches DkimSignatureParseError::MissingTag(t) && t@ == "s"@
    } else {
        false
    }
}

/// A `DKIM-Signature` value parses when its tag list splits and the
/// required tags are all present and well formed.
pub open spec fn parse_ok(s: Seq<char>) -> bool {
    tag_list_ok(s) && sig_tags_ok(tag_list_spec(s))
}

impl DkimSignature {
    /// Parse a `DKIM-Signature` header value into its typed fields.
    pub fn parse(signature: &str) -> (r: Result<DkimSignature, DkimSignatureParseError>)
        ensures
            r is Ok <==> parse_ok(signature@),
            r matches Ok(sig) ==> sig_matches(sig, tag_list_spec(signature@)),
            r matches Err(e) ==> if tag_list_ok(signature@) {
                err_matches(e, tag_list_spec(signature@))
            } else {
                e matches DkimSignatureParseError::BadTag(_)
            },
    {
        let tags = match parse_dkim_signature(signature) {
            Ok(t) => t,
            Err(e) => {
                return Err(e);
            },
        };
        let ghost tv = tag_views(tags@);

        let (header_canon, body_canon) = match parse_canonicalization(&tags) {
            Ok(p) => p,
            Err(e) => {
                return Err(e);
            },
        };

        let a_value = match unwrap_string_tag_value(&tags, "a") {
            Ok(v) => v,
            Err(e) => {
                return Err(e);
            },
        };
        let hash_type = if str_eq(a_value.as_str(), "rsa-sha256") {
            HashAlgorithm::Sha256
        } else if str_eq(a_value.as_str(), "rsa-sha1") {
            HashAlgorithm::Sha1
        } else {
            return Err(DkimSignatureParseError::BadHashAlgorithm(a_value));
        };

        let version = match unwrap_uint_tag_value(&tags, "v") {
            Ok(v) => v,
            Err(e) => {
                return Err(e);
            },
        };
        let b_value = match unwrap_string_tag_value(&tags, "b") {
            Ok(v) => v,
            Err(e) => {
                return Err(e);
            },
        };
        let bh_value = match unwrap_string_tag_value(&tags, "bh") {
            Ok(v) => v,
            Err(e) => {
                return Err(e);
            },
        };
        let sdid = match unwrap_string_tag_value(&tags, "d") {
            Ok(v) => v,
            Err(e) => {
                return Err(e);
            },
        };
        let h_value = match unwrap_string_tag_value(&tags, "h") {
            Ok(v) => v,
            Err(e) => {
                return Err(e);
            },
        };
        let selector = match unwrap_string_tag_value(&tags, "s") {
            Ok(v) => v,
            Err(e) => {
                return Err(e);
            },
        };

        let timestamp = match unwrap_uint_tag_value(&tags, "t") {
            Ok(v) => Some(v),
            Err(_) => None,
        };
        let expiration = match unwrap_uint_tag_value(&tags, "x") {
            Ok(v) => Some(v),
            Err(_) => None,
        };
        let body_length = match unwrap_uint_tag_value(&tags, "l") {
            Ok(v) => Some(v),
            Err(_) => None,
        };
        let auid = unwrap_tag_value(&tags, "i");
        let query_methods = unwrap_tag_value(&tags, "q");
        let copied_header_fields = unwrap_tag_value(&tags, "z");

        let signature_field = remove_all_ws(&b_value);
        let body_hash = remove_all_ws(&bh_value);
        let header_fields = split_colons(&h_value);

        Ok(DkimSignature {
            version,
            hash_type,
            signature: signature_field,
            body_hash,
            sdid,
            header_fields,
            selector,
            timestamp,
            expiration,
            header_canon,
            body_canon,
            auid,
            body_length,
            query_methods,
            copied_header_fields,
        })
    }
}


/// What reaches the hash out of a canonicalized stream: everything, or the
/// first `limit` bytes when the signature carries a body length limit.
pub open spec fn limit_take(out: Seq<u8>, limit: Option<u32>) -> Seq<u8> {
    match limit {
        None => out,
        Some(l) => if out.len() <= l {
            out
        } else {
            out.take(l as int)
        },
    }
}

/// The outcome of checking one DKIM signature.
pub struct DkimResults {
    /// Whether the computed body hash equals the one the signature declares.
    pub body_hash_ok: bool,
}

/// Drives canonicalization and hashing of one message against one parsed
/// signature, and finally compares the computed body hash with the declared
/// one.
pub struct DkimVerifier {
    signature: DkimSignature,
    hasher: Option<openssl::hash::Hasher>,
    body_canon: crate::canonicalizer::AnyBodyCanonicalizer,
    header_canon: crate::canonicalizer::AnyHeaderCanonicalizer,
    body_bytes_hashed: usize,
    canonicalized_headers: Vec<u8>,
    healthy: bool,
    hashed: Ghost<Seq<u8>>,
}

impl DkimVerifier {
    /// The signature under check.
    pub closed spec fn sig(&self) -> DkimSignature {
        self.signature
    }

    /// All body bytes fed so far.
    pub closed spec fn body_fed(&self) -> Seq<u8> {
        self.body_canon.fed()
    }

    /// All canonicalized body bytes that have reached the hash so far.
    pub closed spec fn hashed(&self) -> Seq<u8> {
        self.hashed@
    }

    /// The canonicalized headers accumulated so far.
    pub closed spec fn headers_canon(&self) -> Seq<u8> {
        self.canonicalized_headers@
    }

    /// Whether the hash context was created and every write to it went
    /// through.
    pub closed spec fn hash_ok(&self) -> bool {
        self.healthy
    }

    /// Ask whether the hash context is still healthy: once a creation or
    /// write failure happens, every later step reports `HashError`.
    pub fn hash_healthy(&self) -> (r: bool)
        ensures
            r == self.hash_ok(),
    {
        self.healthy
    }

    /// The canonicalizers match the signature, what reached the hash is the
    /// limited prefix of the canonicalized output, and while the hash
    /// context is healthy it has seen exactly those bytes.
    pub closed spec fn wf(&self) -> bool {
        &&& self.body_canon.wf()
        &&& self.body_canon.kind() == self.signature.body_canon
        &&& self.header_canon.kind() == self.signature.header_canon
        &&& self.hashed@ == limit_take(self.body_canon.out(), self.signature.body_length)
        &&& match self.signature.body_length {
            Some(l) => self.body_bytes_hashed == self.hashed@.len() && self.hashed@.len()
                <= l,
            None => true,
        }
        &&& (self.healthy ==> self.hasher is Some)
        &&& (self.healthy ==> match self.hasher {
            Some(h) => crate::trusted::hasher_bytes(h) == self.hashed@
                && crate::trusted::hasher_is_sha256(h) == (self.signature.hash_type
                == HashAlgorithm::Sha256),
            None => false,
        })
    }

    pub fn new(signature: DkimSignature) -> (v: DkimVerifier)
        ensures
            v.wf(),
            v.sig() == signature,
            v.body_fed() == Seq::<u8>::empty(),
            v.hashed() == Seq::<u8>::empty(),
            v.headers_canon() == Seq::<u8>::empty(),
    {
        let sha256 = match signature.hash_type {
            HashAlgorithm::Sha256 => true,
            HashAlgorithm::Sha1 => false,
        };
        let hasher = crate::trusted::hasher_new(sha256);
        let healthy = hasher.is_some();
        let header_canon = crate::canonicalizer::Canonicalizer::head(signature.header_canon);
        let body_canon = crate::canonicalizer::Canonicalizer::body(signature.body_canon);
        DkimVerifier {
            signature,
            hasher,
            header_canon,
            body_canon,
            body_bytes_hashed: 0,
            canonicalized_headers: Vec::new(),
            healthy,
            hashed: Ghost(Seq::empty()),
        }
    }

    /// The canonicalized headers accumulated so far, for the header check.
    pub fn canonicalized_headers(&self) -> (r: &Vec<u8>)
        ensures
            r@ == self.headers_canon(),
    {
        &self.canonicalized_headers
    }

    /// Canonicalize one assembled header and set it aside for the header
    /// check.
    pub fn add_header(&mut self, name: String, value: String, raw: Vec<u8>)
        ensures
            old(self).wf() ==> final(self).headers_canon() == old(self).headers_canon()
                + crate::canonicalizer::header_canon_of(
                old(self).sig().header_canon,
                name@,
                value@,
                raw@,
            ),
            final(self).sig() == old(self).sig(),
            final(self).body_fed() == old(self).body_fed(),
            final(self).hashed() == old(self).hashed(),
            final(self).hash_ok() == old(self).hash_ok(),
            old(self).wf() ==> final(self).wf(),
    {
        let mut canonicalized_header = self.header_canon.canonicalize(name, value, raw);
        self.canonicalized_headers.append(&mut canonicalized_header);
    }

    /// Cut `data` down to what the body length limit still allows, and
    /// count it as hashed.
    fn limit_body_length(&mut self, data: &mut Vec<u8>)
        ensures
            final(self).signature == old(self).signature,
            final(self).hasher == old(self).hasher,
            final(self).body_canon == old(self).body_canon,
            final(self).header_canon == old(self).header_canon,
            final(self).canonicalized_headers == old(self).canonicalized_headers,
            final(self).hashed@ == old(self).hashed@,
            final(self).healthy == old(self).healthy,
            match old(self).signature.body_length {
                None => final(data)@ == old(data)@,
                Some(l) => {
                    let rem: int = if l >= old(self).body_bytes_hashed {
                        l - old(self).body_bytes_hashed
                    } else {
                        0
                    };
                    &&& final(data)@ == (if old(data)@.len() <= rem {
                        old(data)@
                    } else {
                        old(data)@.take(rem)
                    })
                    &&& final(self).body_bytes_hashed == old(self).body_bytes_hashed
                        + final(data)@.len()
                },
            },
    {
        match self.signature.body_length {
            Some(body_length) => {
                let limit = body_length as usize;
                let rem: usize = if limit >= self.body_bytes_hashed {
                    limit - self.body_bytes_hashed
                } else {
                    0
                };
                data.truncate(rem);
                self.body_bytes_hashed = self.body_bytes_hashed + data.len();
            },
            None => {
                let n = data.len();
                if self.body_bytes_hashed <= usize::MAX - n {
                    self.body_bytes_hashed = self.body_bytes_hashed + n;
                } else {
                    self.body_bytes_hashed = usize::MAX;
                }
            },
        }
    }

    /// Feed one body chunk: canonicalize it, honor the body length limit,
    /// and hash what remains.  Never do more canonicalized bytes than the
    /// signature's `body_length_limit` reach the hash.  Once the hash
    /// context has failed, every further call reports `HashError` without
    /// touching it, so an error return and an unhealthy context are the
    /// same thing.
    pub fn update_body(&mut self, data: &Vec<u8>) -> (r: Result<usize, DkimVerificationError>)
        ensures
            final(self).sig() == old(self).sig(),
            final(self).body_fed() == old(self).body_fed() + data@,
            final(self).headers_canon() == old(self).headers_canon(),
            old(self).wf() ==> final(self).wf(),
            old(self).wf() ==> final(self).hashed() == limit_take(
                final(self).body_canon_out(),
                old(self).sig().body_length,
            ),
            old(self).wf() ==> match old(self).sig().body_length {
                Some(l) => final(self).hashed().len() <= l,
                None => true,
            },
            r is Err <==> !final(self).hash_ok(),
            r matches Err(e) ==> e is HashError,
            old(self).wf() ==> match r {
                Ok(n) => n == final(self).hashed().len() - old(self).hashed().len(),
                Err(_) => true,
            },
    {
        let ghost out0 = self.body_canon.out();
        let mut canonicalized_data = self.body_canon.canonicalize(data);
        let ghost chunk = canonicalized_data@;
        self.limit_body_length(&mut canonicalized_data);
        proof {
            if old(self).wf() {
                lemma_limit_take_step(out0, chunk, self.signature.body_length, self.hashed@);
                assert(self.hashed@ + canonicalized_data@ == limit_take(
                    out0 + chunk,
                    self.signature.body_length,
                ));
            }
        }
        let n = canonicalized_data.len();
        let ok: bool = if self.healthy {
            let mut h_opt: Option<openssl::hash::Hasher> = None;
            core::mem::swap(&mut h_opt, &mut self.hasher);
            match h_opt {
                Some(mut h) => {
                    let ok = crate::trusted::hasher_update(&mut h, &canonicalized_data);
                    self.hasher = Some(h);
                    ok
                },
                None => false,
            }
        } else {
            false
        };
        self.healthy = ok;
        proof {
            self.hashed@ = self.hashed@ + canonicalized_data@;
        }
        if ok {
            Ok(n)
        } else {
            Err(DkimVerificationError::HashError)
        }
    }

    /// The canonicalized body stream emitted so far.
    pub closed spec fn body_canon_out(&self) -> Seq<u8> {
        self.body_canon.out()
    }

    /// Close the body stream, hash its tail, and compare the computed body
    /// hash against the one the signature declares.  When the hash context
    /// stayed healthy, the verdict is exactly whether the base64 of the
    /// digest of the limited canonicalized body equals the declared hash.
    pub fn finalize_body(self) -> (r: Result<DkimResults, DkimVerificationError>)
        ensures
            r matches Err(e) ==> e is HashError,
            !self.hash_ok() ==> r is Err,
            (self.wf() && self.hash_ok()) ==> match r {
                Ok(res) => res.body_hash_ok == (crate::trusted::base64_standard(
                    crate::trusted::digest_of(
                        self.sig().hash_type == HashAlgorithm::Sha256,
                        limit_take(
                            crate::canonicalizer::body_canon_of(
                                self.sig().body_canon,
                                self.body_fed(),
                            ),
                            self.sig().body_length,
                        ),
                    ),
                ) == self.sig().body_hash@),
                Err(_) => true,
            },
    {
        let mut this = self;
        if !this.healthy {
            return Err(DkimVerificationError::HashError);
        }
        let ghost out0 = this.body_canon.out();
        let mut data = this.body_canon.flush();
        let ghost chunk = data@;
        this.limit_body_length(&mut data);
        proof {
            if self.wf() {
                lemma_limit_take_step(out0, chunk, this.signature.body_length, this.hashed@);
                assert(out0 + chunk == crate::canonicalizer::body_canon_of(
                    self.sig().body_canon,
                    self.body_fed(),
                ));
            }
        }
        let mut h_opt: Option<openssl::hash::Hasher> = None;
        core::mem::swap(&mut h_opt, &mut this.hasher);
        let mut h = match h_opt {
            Some(h) => h,
            None => {
                return Err(DkimVerificationError::HashError);
            },
        };
        let ok = crate::trusted::hasher_update(&mut h, &data);
        if !ok {
            return Err(DkimVerificationError::HashError);
        }
        let digest = match crate::trusted::hasher_finish(&mut h) {
            Some(d) => d,
            None => {
                return Err(DkimVerificationError::HashError);
            },
        };
        let hash_string = crate::trusted::to_base64_standard(&digest);
        let matches = str_eq(hash_string.as_str(), this.signature.body_hash.as_str());
        Ok(DkimResults { body_hash_ok: matches })
    }
}

/// Feeding one more canonicalized chunk moves the limited prefix forward by
/// exactly the truncated chunk.
proof fn lemma_limit_take_step(out: Seq<u8>, chunk: Seq<u8>, limit: Option<u32>, hashed: Seq<u8>)
    requires
        hashed == limit_take(out, limit),
        match limit {
            Some(l) => hashed.len() <= l,
            None => true,
        },
    ensures
        match limit {
            None => hashed + chunk == limit_take(out + chunk, limit),
            Some(l) => {
                let rem: int = if l >= hashed.len() {
                    l - hashed.len()
                } else {
                    0
                };
                hashed + (if chunk.len() <= rem {
                    chunk
                } else {
                    chunk.take(rem)
                }) == limit_take(out + chunk, limit)
            },
        },
{
    match limit {
        None => {
            assert(hashed + chunk =~= out + chunk);
        },
        Some(l) => {
            let rem: int = if l >= hashed.len() {
                l - hashed.len()
            } else {
                0
            };
            let cut = if chunk.len() <= rem {
                chunk
            } else {
                chunk.take(rem)
            };
            if out.len() <= l {
                assert(hashed == out);
                if (out + chunk).len() <= l {
                    assert(hashed + cut =~= out + chunk);
                } else {
                    assert(hashed + cut =~= (out + chunk).take(l as int));
                }
            } else {
                assert(hashed == out.take(l as int));
                assert(rem == 0);
                assert(hashed + cut =~= (out + chunk).take(l as int));
            }
        },
    }
}

} // verus!

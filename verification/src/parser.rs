//! Token-level parser.
//!
//! The parser materializes the whole token sequence of a text, repairs it
//! in place (folding carriage returns away and squashing stray markers into
//! neighbouring content), and then assembles blocks of semantic nodes with
//! a monotonically advancing cursor. Malformed markup is never an error: a
//! construct that fails to match degrades into literal text.

use vstd::prelude::*;
use vstd::string::StringExecFns;
use crate::lexer::{tok_text, tokenize, tokenize_from, Lexer, MarkdownToken, TokenModel};

verus! {

/// Ghost model of a semantic node: the same variants as [`ParsedToken`],
/// with text carried as sequences of characters and the header level as a
/// mathematical integer.
pub enum NodeModel {
    Header { level: nat, content: Seq<char> },
    Bold { content: Seq<char> },
    Italic { content: Seq<char> },
    Link { text: Seq<char>, href: Seq<char> },
    Text { content: Seq<char> },
}

/// One semantic node. `Header` is a leaf construct that closes at line
/// end; `Bold`, `Italic` and `Link` are container constructs with explicit
/// opening and closing markers; `Text` is the fallback for plain content.
#[derive(Debug, PartialEq)]
pub enum ParsedToken {
    Header { level: usize, content: String },
    Bold { content: String },
    Italic { content: String },
    Link { text: String, href: String },
    Text { content: String },
}

impl View for ParsedToken {
    type V = NodeModel;

    open spec fn view(&self) -> NodeModel {
        match self {
            ParsedToken::Header { level, content } => NodeModel::Header {
                level: *level as nat,
                content: content@,
            },
            ParsedToken::Bold { content } => NodeModel::Bold { content: content@ },
            ParsedToken::Italic { content } => NodeModel::Italic { content: content@ },
            ParsedToken::Link { text, href } => NodeModel::Link { text: text@, href: href@ },
            ParsedToken::Text { content } => NodeModel::Text { content: content@ },
        }
    }
}

/// A block: one unit of top-level document structure (a header line or a
/// paragraph), separated from its neighbours by a blank line.
#[derive(Debug, PartialEq)]
pub struct Block {
    pub children: Vec<ParsedToken>,
}

/// The models of a sequence of tokens.
pub open spec fn toks_view(ts: Seq<MarkdownToken>) -> Seq<TokenModel> {
    ts.map_values(|t: MarkdownToken| t@)
}

/// The models of a sequence of nodes.
pub open spec fn nodes_view(ns: Seq<ParsedToken>) -> Seq<NodeModel> {
    ns.map_values(|n: ParsedToken| n@)
}

/// The token at `i`, or the `EndOfInput` sentinel when `i` is out of
/// bounds.
pub open spec fn peek_model(ts: Seq<TokenModel>, i: int) -> TokenModel {
    if 0 <= i < ts.len() {
        ts[i]
    } else {
        TokenModel::EndOfInput
    }
}

/// The text of a `Content` token; the empty sequence for every other
/// token.
pub open spec fn content_of(t: TokenModel) -> Seq<char> {
    match t {
        TokenModel::Content(s) => s,
        _ => Seq::empty(),
    }
}

/// The marker tokens that may be squashed into literal content: the nine
/// single-character structural markers.
pub open spec fn is_squashable(t: TokenModel) -> bool {
    match t {
        TokenModel::Hash => true,
        TokenModel::Asterisk => true,
        TokenModel::Underscore => true,
        TokenModel::Backslash => true,
        TokenModel::OpenParen => true,
        TokenModel::CloseParen => true,
        TokenModel::OpenSquareBracket => true,
        TokenModel::CloseSquareBracket => true,
        TokenModel::Dash => true,
        _ => false,
    }
}

/// The result of squashing the marker at `i` into literal content.
///
/// The marker's character is merged into the preceding `Content` token
/// when there is one (and the following `Content` token, if any, is merged
/// in as well, so that no two adjacent `Content` tokens remain); otherwise
/// it is merged into the following `Content` token; with no `Content`
/// neighbour at all, the marker itself is promoted to a one-character
/// `Content` token in place.
pub open spec fn squash_at(ts: Seq<TokenModel>, i: int) -> Seq<TokenModel>
    recommends
        0 <= i < ts.len(),
{
    let txt = tok_text(ts[i]);
    if i > 0 && ts[i - 1] is Content {
        if i + 1 < ts.len() && ts[i + 1] is Content {
            ts.take(i - 1) + seq![
                TokenModel::Content(content_of(ts[i - 1]) + txt + content_of(ts[i + 1])),
            ] + ts.skip(i + 2)
        } else {
            ts.take(i - 1) + seq![TokenModel::Content(content_of(ts[i - 1]) + txt)] + ts.skip(
                i + 1,
            )
        }
    } else if i + 1 < ts.len() && ts[i + 1] is Content {
        ts.take(i) + seq![TokenModel::Content(txt + content_of(ts[i + 1]))] + ts.skip(i + 2)
    } else {
        ts.update(i, TokenModel::Content(txt))
    }
}

/// Law: squashing a stray marker preserves the no-adjacent-`Content`
/// shape of a token sequence: the rule re-merges neighbouring content
/// rather than leaving two `Content` tokens side by side.
pub proof fn lemma_squash_preserves_no_adjacent(ts: Seq<TokenModel>, i: int)
    requires
        0 <= i < ts.len(),
        !(ts[i] is Content),
        crate::lexer::no_adjacent_content(ts),
    ensures
        crate::lexer::no_adjacent_content(squash_at(ts, i)),
{
    let sq = squash_at(ts, i);
    if i > 0 && ts[i - 1] is Content {
        if i + 1 < ts.len() && ts[i + 1] is Content {
            assert forall|j: int| 0 <= j < sq.len() - 1 implies !((#[trigger] sq[j]) is Content
                && sq[j + 1] is Content) by {
                if j < i - 2 {
                    assert(sq[j] == ts[j]);
                    assert(sq[j + 1] == ts[j + 1]);
                } else if j == i - 2 {
                    assert(sq[j] == ts[j]);
                    assert(!(ts[i - 2] is Content));
                } else if j == i - 1 {
                    assert(sq[j + 1] == ts[j + 3]);
                    assert(!(ts[i + 2] is Content));
                } else {
                    assert(sq[j] == ts[j + 2]);
                    assert(sq[j + 1] == ts[j + 3]);
                }
            }
        } else {
            assert forall|j: int| 0 <= j < sq.len() - 1 implies !((#[trigger] sq[j]) is Content
                && sq[j + 1] is Content) by {
                if j < i - 2 {
                    assert(sq[j] == ts[j]);
                    assert(sq[j + 1] == ts[j + 1]);
                } else if j == i - 2 {
                    assert(sq[j] == ts[j]);
                    assert(!(ts[i - 2] is Content));
                } else if j == i - 1 {
                    assert(sq[j + 1] == ts[j + 2]);
                } else {
                    assert(sq[j] == ts[j + 1]);
                    assert(sq[j + 1] == ts[j + 2]);
                }
            }
        }
    } else if i + 1 < ts.len() && ts[i + 1] is Content {
        assert forall|j: int| 0 <= j < sq.len() - 1 implies !((#[trigger] sq[j]) is Content && sq[j
            + 1] is Content) by {
            if j < i - 1 {
                assert(sq[j] == ts[j]);
                assert(sq[j + 1] == ts[j + 1]);
            } else if j == i - 1 {
                assert(sq[j] == ts[j]);
            } else if j == i {
                assert(sq[j + 1] == ts[j + 2]);
                assert(!(ts[i + 2] is Content));
            } else {
                assert(sq[j] == ts[j + 1]);
                assert(sq[j + 1] == ts[j + 2]);
            }
        }
    } else {
        assert forall|j: int| 0 <= j < sq.len() - 1 implies !((#[trigger] sq[j]) is Content && sq[j
            + 1] is Content) by {
            if j + 1 < i || j > i {
                assert(sq[j] == ts[j]);
                assert(sq[j + 1] == ts[j + 1]);
            }
        }
    }
}

/// Whether the token at `j` survives the repair pass unchanged: it is not
/// a carriage return, and if it is a `#` or `-` marker it sits in a run of
/// the same marker anchored at the start of a line (its predecessor is a
/// newline, the same marker, or nothing).
pub open spec fn kept_at(ts: Seq<TokenModel>, j: int) -> bool {
    &&& !(ts[j] is CarriageReturn)
    &&& (ts[j] is Hash || ts[j] is Dash) ==> (j == 0 || ts[j - 1] is NewLine || ts[j - 1]
        == ts[j])
}

/// A sequence that the repair pass leaves unchanged.
pub open spec fn repaired(ts: Seq<TokenModel>) -> bool {
    forall|j: int| 0 <= j < ts.len() ==> #[trigger] kept_at(ts, j)
}

/// One left-to-right sweep of the repair pass: `done` is the already
/// repaired prefix, `rest` the tokens still to be examined. Carriage
/// returns are dropped; a `#` or `-` marker that is not anchored at a line
/// start is squashed into neighbouring content; everything else is kept.
pub open spec fn repair_step(done: Seq<TokenModel>, rest: Seq<TokenModel>) -> Seq<TokenModel>
    decreases rest.len(),
{
    if rest.len() == 0 {
        done
    } else {
        let t = rest[0];
        if t is CarriageReturn {
            repair_step(done, rest.drop_first())
        } else if (t is Hash || t is Dash) && !(done.len() == 0 || done.last() is NewLine
            || done.last() == t) {
            if done.len() > 0 && done.last() is Content {
                if rest.len() > 1 && rest[1] is Content {
                    repair_step(
                        done.drop_last().push(
                            TokenModel::Content(
                                content_of(done.last()) + tok_text(t) + content_of(rest[1]),
                            ),
                        ),
                        rest.skip(2),
                    )
                } else {
                    repair_step(
                        done.drop_last().push(
                            TokenModel::Content(content_of(done.last()) + tok_text(t)),
                        ),
                        rest.drop_first(),
                    )
                }
            } else if rest.len() > 1 && rest[1] is Content {
                repair_step(
                    done.push(TokenModel::Content(tok_text(t) + content_of(rest[1]))),
                    rest.skip(2),
                )
            } else {
                repair_step(done.push(TokenModel::Content(tok_text(t))), rest.drop_first())
            }
        } else {
            repair_step(done.push(t), rest.drop_first())
        }
    }
}

/// The result of the repair pass over a whole token sequence.
pub open spec fn repair(ts: Seq<TokenModel>) -> Seq<TokenModel> {
    repair_step(Seq::empty(), ts)
}

/// Squashing an unanchored `#` or `-` at `i` agrees with one step of the
/// repair sweep, and strictly shrinks the part of the sequence that is
/// still to be examined.
proof fn lemma_squash_repair_step(ts: Seq<TokenModel>, i: int)
    requires
        0 <= i < ts.len(),
        ts[i] is Hash || ts[i] is Dash,
        !(i == 0 || ts[i - 1] is NewLine || ts[i - 1] == ts[i]),
    ensures
        ({
            let sq = squash_at(ts, i);
            let i2 = if ts[i - 1] is Content {
                i
            } else {
                i + 1
            };
            &&& 0 <= i2 <= sq.len()
            &&& sq.len() - i2 < ts.len() - i
            &&& repair_step(ts.take(i), ts.skip(i)) == repair_step(sq.take(i2), sq.skip(i2))
        }),
{
    let sq = squash_at(ts, i);
    let done = ts.take(i);
    let rest = ts.skip(i);
    assert(done.len() == i);
    assert(rest[0] == ts[i]);
    if i > 0 {
        assert(done.last() == ts[i - 1]);
    }
    if ts[i - 1] is Content {
        if i + 1 < ts.len() && ts[i + 1] is Content {
            assert(rest[1] == ts[i + 1]);
            assert(done.drop_last().push(
                TokenModel::Content(content_of(done.last()) + tok_text(ts[i]) + content_of(rest[1])),
            ) =~= sq.take(i));
            assert(rest.skip(2) =~= sq.skip(i));
        } else {
            assert(done.drop_last().push(
                TokenModel::Content(content_of(done.last()) + tok_text(ts[i])),
            ) =~= sq.take(i));
            assert(rest.drop_first() =~= sq.skip(i));
        }
    } else if i + 1 < ts.len() && ts[i + 1] is Content {
        assert(rest[1] == ts[i + 1]);
        assert(done.push(TokenModel::Content(tok_text(ts[i]) + content_of(rest[1]))) =~= sq.take(
            i + 1,
        ));
        assert(rest.skip(2) =~= sq.skip(i + 1));
    } else {
        assert(done.push(TokenModel::Content(tok_text(ts[i]))) =~= sq.take(i + 1));
        assert(rest.drop_first() =~= sq.skip(i + 1));
    }
}

/// A sweep over a sequence whose remainder is already in repaired shape
/// changes nothing.
proof fn lemma_repair_step_id(ts: Seq<TokenModel>, i: int)
    requires
        0 <= i <= ts.len(),
        forall|j: int| i <= j < ts.len() ==> #[trigger] kept_at(ts, j),
    ensures
        repair_step(ts.take(i), ts.skip(i)) == ts,
    decreases ts.len() - i,
{
    if i == ts.len() {
        assert(ts.take(i) =~= ts);
        assert(ts.skip(i).len() == 0);
    } else {
        assert(kept_at(ts, i));
        assert(ts.skip(i)[0] == ts[i]);
        if i > 0 {
            assert(ts.take(i).last() == ts[i - 1]);
        }
        assert(ts.take(i).push(ts[i]) =~= ts.take(i + 1));
        assert(ts.skip(i).drop_first() =~= ts.skip(i + 1));
        lemma_repair_step_id(ts, i + 1);
    }
}

/// The repair sweep only ever produces repaired prefixes: its result is in
/// repaired shape.
proof fn lemma_repair_step_repaired(done: Seq<TokenModel>, rest: Seq<TokenModel>)
    requires
        repaired(done),
    ensures
        repaired(repair_step(done, rest)),
    decreases rest.len(),
{
    if rest.len() == 0 {
    } else {
        let t = rest[0];
        if t is CarriageReturn {
            lemma_repair_step_repaired(done, rest.drop_first());
        } else if (t is Hash || t is Dash) && !(done.len() == 0 || done.last() is NewLine
            || done.last() == t) {
            if done.len() > 0 && done.last() is Content {
                if rest.len() > 1 && rest[1] is Content {
                    let done2 = done.drop_last().push(
                        TokenModel::Content(
                            content_of(done.last()) + tok_text(t) + content_of(rest[1]),
                        ),
                    );
                    assert forall|j: int| 0 <= j < done2.len() implies #[trigger] kept_at(
                        done2,
                        j,
                    ) by {
                        assert(kept_at(done, j));
                    }
                    lemma_repair_step_repaired(done2, rest.skip(2));
                } else {
                    let done2 = done.drop_last().push(
                        TokenModel::Content(content_of(done.last()) + tok_text(t)),
                    );
                    assert forall|j: int| 0 <= j < done2.len() implies #[trigger] kept_at(
                        done2,
                        j,
                    ) by {
                        assert(kept_at(done, j));
                    }
                    lemma_repair_step_repaired(done2, rest.drop_first());
                }
            } else if rest.len() > 1 && rest[1] is Content {
                let done2 = done.push(TokenModel::Content(tok_text(t) + content_of(rest[1])));
                assert forall|j: int| 0 <= j < done2.len() implies #[trigger] kept_at(
                    done2,
                    j,
                ) by {
                    if j < done.len() {
                        assert(kept_at(done, j));
                    }
                }
                lemma_repair_step_repaired(done2, rest.skip(2));
            } else {
                let done2 = done.push(TokenModel::Content(tok_text(t)));
                assert forall|j: int| 0 <= j < done2.len() implies #[trigger] kept_at(
                    done2,
                    j,
                ) by {
                    if j < done.len() {
                        assert(kept_at(done, j));
                    }
                }
                lemma_repair_step_repaired(done2, rest.drop_first());
            }
        } else {
            let done2 = done.push(t);
            assert forall|j: int| 0 <= j < done2.len() implies #[trigger] kept_at(done2, j) by {
                if j < done.len() {
                    assert(kept_at(done, j));
                }
            }
            lemma_repair_step_repaired(done2, rest.drop_first());
        }
    }
}

/// Law: the repair pass is idempotent. A second run over an already
/// repaired token sequence produces no further change.
pub proof fn lemma_repair_idempotent(ts: Seq<TokenModel>)
    ensures
        repair(repair(ts)) == repair(ts),
{
    lemma_repair_step_repaired(Seq::empty(), ts);
    let r = repair(ts);
    lemma_repair_step_id(r, 0);
    assert(r.take(0) =~= Seq::empty());
    assert(r.skip(0) =~= r);
}

/// The index of the first newline token at or after `i`, or the length of
/// the sequence when the line runs to the end of the stream.
pub open spec fn line_end(ts: Seq<TokenModel>, i: int) -> int
    decreases ts.len() - i,
{
    if i < 0 || i >= ts.len() {
        ts.len() as int
    } else if ts[i] is NewLine {
        i
    } else {
        line_end(ts, i + 1)
    }
}

pub proof fn lemma_line_end_bounds(ts: Seq<TokenModel>, i: int)
    requires
        0 <= i <= ts.len(),
    ensures
        i <= line_end(ts, i) <= ts.len(),
        forall|j: int| i <= j < line_end(ts, i) ==> !((#[trigger] ts[j]) is NewLine),
        line_end(ts, i) < ts.len() ==> ts[line_end(ts, i)] is NewLine,
    decreases ts.len() - i,
{
    if i < ts.len() && !(ts[i] is NewLine) {
        lemma_line_end_bounds(ts, i + 1);
    }
}

/// The number of `#` tokens among positions `i..end`.
pub open spec fn hash_count(ts: Seq<TokenModel>, i: int, end: int) -> nat
    decreases end - i,
{
    if i < end {
        hash_count(ts, i, end - 1) + (if ts[end - 1] is Hash {
            1nat
        } else {
            0nat
        })
    } else {
        0
    }
}

/// The concatenated text of the `Content` tokens among positions
/// `i..end`; other tokens contribute nothing.
pub open spec fn header_text(ts: Seq<TokenModel>, i: int, end: int) -> Seq<char>
    decreases end - i,
{
    if i < end {
        header_text(ts, i, end - 1) + content_of(ts[end - 1])
    } else {
        Seq::empty()
    }
}

proof fn lemma_hash_count_split(ts: Seq<TokenModel>, a: int, b: int, c: int)
    requires
        a <= b <= c,
    ensures
        hash_count(ts, a, c) == hash_count(ts, a, b) + hash_count(ts, b, c),
    decreases c - b,
{
    if b < c {
        lemma_hash_count_split(ts, a, b, c - 1);
    }
}

proof fn lemma_hash_count_all(ts: Seq<TokenModel>, a: int, b: int)
    requires
        a <= b,
        forall|j: int| a <= j < b ==> (#[trigger] ts[j]) is Hash,
    ensures
        hash_count(ts, a, b) == b - a,
    decreases b - a,
{
    if a < b {
        lemma_hash_count_all(ts, a, b - 1);
    }
}

proof fn lemma_hash_count_none(ts: Seq<TokenModel>, a: int, b: int)
    requires
        a <= b,
        forall|j: int| a <= j < b ==> !((#[trigger] ts[j]) is Hash),
    ensures
        hash_count(ts, a, b) == 0,
    decreases b - a,
{
    if a < b {
        lemma_hash_count_none(ts, a, b - 1);
    }
}

/// Law: a run of `k` consecutive `#` tokens starting at `p`, followed to
/// the end of its line by tokens none of which is another `#`, yields a
/// header of level exactly `k`.
pub proof fn lemma_header_level_counts_run(ts: Seq<TokenModel>, p: int, k: int)
    requires
        0 <= p,
        1 <= k,
        p + k <= ts.len(),
        forall|j: int| p <= j < p + k ==> (#[trigger] ts[j]) is Hash,
        forall|j: int| p + k <= j < line_end(ts, p + 1) ==> !((#[trigger] ts[j]) is Hash),
    ensures
        1 + hash_count(ts, p + 1, line_end(ts, p + 1)) == k,
{
    let e = line_end(ts, p + 1);
    lemma_line_end_bounds(ts, p + 1);
    assert(e >= p + k) by {
        if e < p + k {
            assert(ts[e] is Hash);
        }
    }
    lemma_hash_count_split(ts, p + 1, p + k, e);
    lemma_hash_count_all(ts, p + 1, p + k);
    lemma_hash_count_none(ts, p + k, e);
}

/// Whether the cursor position `cur` sits at the start of a line: at the
/// start of the stream, or immediately after a newline. (A stray
/// `EndOfInput` token in the stream counts like a lookup past the end.)
pub open spec fn line_start_guard(ts: Seq<TokenModel>, cur: int) -> bool {
    peek_model(ts, cur - 1) is NewLine || peek_model(ts, cur - 1) is EndOfInput
}

/// Relates a header parse attempt at cursor `cur` over tokens `ts` to the
/// tokens `ts2` and cursor `cur2` afterwards and the nodes of the block
/// produced, if any.
pub open spec fn hashtag_post(
    ts: Seq<TokenModel>,
    cur: int,
    ts2: Seq<TokenModel>,
    cur2: int,
    nodes: Option<Seq<NodeModel>>,
) -> bool {
    if !(cur < ts.len() && ts[cur] is Hash) {
        nodes is None && ts2 == ts && cur2 == cur
    } else if line_start_guard(ts, cur) {
        let end = line_end(ts, cur + 1);
        &&& ts2 == ts
        &&& cur2 == (if end < ts.len() {
            end + 1
        } else {
            ts.len() as int
        })
        &&& nodes == Some(
            seq![
                NodeModel::Header {
                    level: (1 + hash_count(ts, cur + 1, end)) as nat,
                    content: header_text(ts, cur + 1, end),
                },
            ],
        )
    } else {
        nodes is None && cur2 == cur && ts2 == squash_at(ts, cur)
    }
}

/// The position of the first token equal to `close` at or after `i`, or
/// -1 when a blank-line block boundary (two adjacent newlines) or the end
/// of the stream comes first: container constructs do not cross a block
/// boundary.
pub open spec fn find_close(ts: Seq<TokenModel>, i: int, close: TokenModel) -> int
    decreases ts.len() - i,
{
    if i < 0 || i >= ts.len() {
        -1
    } else if ts[i] == close {
        i
    } else if ts[i] is NewLine && i + 1 < ts.len() && ts[i + 1] is NewLine {
        -1
    } else {
        find_close(ts, i + 1, close)
    }
}

pub proof fn lemma_find_close_bounds(ts: Seq<TokenModel>, i: int, close: TokenModel)
    requires
        0 <= i,
    ensures
        find_close(ts, i, close) == -1 || i <= find_close(ts, i, close) < ts.len(),
    decreases ts.len() - i,
{
    if i < ts.len() && !(ts[i] == close) && !(ts[i] is NewLine && i + 1 < ts.len() && ts[i + 1]
        is NewLine) {
        lemma_find_close_bounds(ts, i + 1, close);
    }
}

/// The concatenated literal text of the tokens among positions `i..end`.
pub open spec fn range_text(ts: Seq<TokenModel>, i: int, end: int) -> Seq<char>
    decreases end - i,
{
    if i < end {
        range_text(ts, i, end - 1) + tok_text(ts[end - 1])
    } else {
        Seq::empty()
    }
}

/// A link construct at `i` (which holds the opening `[`): the matching
/// `]`, an immediately following `(`, and the matching `)` must all be
/// found on this side of a block boundary; the link's text and target are
/// the literal text between the respective pairs. The second component is
/// the position just past the closing `)`.
pub open spec fn link_at(ts: Seq<TokenModel>, i: int) -> Option<(NodeModel, int)> {
    let close_b = find_close(ts, i + 1, TokenModel::CloseSquareBracket);
    if close_b < 0 {
        None
    } else if !(close_b + 1 < ts.len() && ts[close_b + 1] is OpenParen) {
        None
    } else {
        let close_p = find_close(ts, close_b + 2, TokenModel::CloseParen);
        if close_p < 0 {
            None
        } else {
            Some(
                (
                    NodeModel::Link {
                        text: range_text(ts, i + 1, close_b),
                        href: range_text(ts, close_b + 2, close_p),
                    },
                    close_p + 1,
                ),
            )
        }
    }
}

/// An emphasis span opened at `i`: the literal text up to the matching
/// closing marker, and the position just past it.
pub open spec fn span_at(ts: Seq<TokenModel>, i: int, close: TokenModel) -> Option<
    (Seq<char>, int),
> {
    let c = find_close(ts, i + 1, close);
    if c < 0 {
        None
    } else {
        Some((range_text(ts, i + 1, c), c + 1))
    }
}

/// The nodes that a run of accumulated literal text flushes to: a single
/// `Text` node, or nothing when the run is empty.
pub open spec fn flush(acc: Seq<char>) -> Seq<NodeModel> {
    if acc.len() == 0 {
        Seq::empty()
    } else {
        seq![NodeModel::Text { content: acc }]
    }
}

/// Paragraph accumulation from position `i` with the literal text run
/// `acc` already gathered: container constructs that match become nodes,
/// everything else joins the text run, and the paragraph ends at a blank
/// line, before a header line, or at the end of the stream. The second
/// component is the cursor afterwards.
pub open spec fn paragraph_from(ts: Seq<TokenModel>, i: int, acc: Seq<char>) -> (
    Seq<NodeModel>,
    int,
)
    decreases ts.len() - i,
    when 0 <= i
    via paragraph_from_decreases
{
    if i >= ts.len() {
        (flush(acc), ts.len() as int)
    } else if ts[i] is NewLine {
        if i + 1 >= ts.len() {
            (flush(acc), i + 1)
        } else if ts[i + 1] is NewLine {
            (flush(acc), i + 2)
        } else if ts[i + 1] is Hash {
            (flush(acc), i + 1)
        } else {
            paragraph_from(ts, i + 1, acc.push('\n'))
        }
    } else if ts[i] is OpenSquareBracket && link_at(ts, i) is Some {
        let m = link_at(ts, i)->Some_0;
        let rest = paragraph_from(ts, m.1, Seq::empty());
        (flush(acc) + seq![m.0] + rest.0, rest.1)
    } else if ts[i] is Asterisk && span_at(ts, i, TokenModel::Asterisk) is Some {
        let m = span_at(ts, i, TokenModel::Asterisk)->Some_0;
        let rest = paragraph_from(ts, m.1, Seq::empty());
        (flush(acc) + seq![NodeModel::Bold { content: m.0 }] + rest.0, rest.1)
    } else if ts[i] is Underscore && span_at(ts, i, TokenModel::Underscore) is Some {
        let m = span_at(ts, i, TokenModel::Underscore)->Some_0;
        let rest = paragraph_from(ts, m.1, Seq::empty());
        (flush(acc) + seq![NodeModel::Italic { content: m.0 }] + rest.0, rest.1)
    } else {
        paragraph_from(ts, i + 1, acc + tok_text(ts[i]))
    }
}

#[via_fn]
proof fn paragraph_from_decreases(ts: Seq<TokenModel>, i: int, acc: Seq<char>) {
    if 0 <= i < ts.len() {
        lemma_find_close_bounds(ts, i + 1, TokenModel::CloseSquareBracket);
        let cb = find_close(ts, i + 1, TokenModel::CloseSquareBracket);
        if cb >= 0 {
            lemma_find_close_bounds(ts, cb + 2, TokenModel::CloseParen);
        }
        lemma_find_close_bounds(ts, i + 1, TokenModel::Asterisk);
        lemma_find_close_bounds(ts, i + 1, TokenModel::Underscore);
    }
}

pub proof fn lemma_paragraph_bounds(ts: Seq<TokenModel>, i: int, acc: Seq<char>)
    requires
        0 <= i,
    ensures
        i < ts.len() ==> i < paragraph_from(ts, i, acc).1 <= ts.len(),
        i >= ts.len() ==> paragraph_from(ts, i, acc).1 == ts.len(),
    decreases ts.len() - i,
{
    if i < ts.len() {
        if ts[i] is NewLine {
            if i + 1 >= ts.len() || ts[i + 1] is NewLine || ts[i + 1] is Hash {
            } else {
                lemma_paragraph_bounds(ts, i + 1, acc.push('\n'));
            }
        } else if ts[i] is OpenSquareBracket && link_at(ts, i) is Some {
            let m = link_at(ts, i)->Some_0;
            lemma_find_close_bounds(ts, i + 1, TokenModel::CloseSquareBracket);
            let cb = find_close(ts, i + 1, TokenModel::CloseSquareBracket);
            lemma_find_close_bounds(ts, cb + 2, TokenModel::CloseParen);
            lemma_paragraph_bounds(ts, m.1, Seq::empty());
        } else if ts[i] is Asterisk && span_at(ts, i, TokenModel::Asterisk) is Some {
            let m = span_at(ts, i, TokenModel::Asterisk)->Some_0;
            lemma_find_close_bounds(ts, i + 1, TokenModel::Asterisk);
            lemma_paragraph_bounds(ts, m.1, Seq::empty());
        } else if ts[i] is Underscore && span_at(ts, i, TokenModel::Underscore) is Some {
            let m = span_at(ts, i, TokenModel::Underscore)->Some_0;
            lemma_find_close_bounds(ts, i + 1, TokenModel::Underscore);
            lemma_paragraph_bounds(ts, m.1, Seq::empty());
        } else {
            lemma_paragraph_bounds(ts, i + 1, acc + tok_text(ts[i]));
        }
    }
}

/// Whether a construct marker at `i` opens a construct that fails to
/// match: a `#` (away from a line start, or this branch is never reached),
/// or a container marker whose closing counterpart is missing.
pub open spec fn construct_fails(ts: Seq<TokenModel>, i: int) -> bool {
    ||| ts[i] is Hash
    ||| (ts[i] is OpenSquareBracket && link_at(ts, i) is None)
    ||| (ts[i] is Asterisk && span_at(ts, i, TokenModel::Asterisk) is None)
    ||| (ts[i] is Underscore && span_at(ts, i, TokenModel::Underscore) is None)
}

/// Relates one block dispatch at cursor `cur` over tokens `ts` to the
/// tokens `ts2` and cursor `cur2` afterwards and the nodes of the block
/// produced, if any. `None` with an unchanged stream means the position
/// holds plain content; `None` after a squash means a construct marker
/// failed to match and was degraded to literal text.
pub open spec fn block_post(
    ts: Seq<TokenModel>,
    cur: int,
    ts2: Seq<TokenModel>,
    cur2: int,
    nodes: Option<Seq<NodeModel>>,
) -> bool {
    if !(0 <= cur < ts.len()) {
        nodes is None && ts2 == ts && cur2 == cur
    } else if ts[cur] is Hash {
        hashtag_post(ts, cur, ts2, cur2, nodes)
    } else if ts[cur] is OpenSquareBracket || ts[cur] is Asterisk || ts[cur] is Underscore {
        if construct_fails(ts, cur) {
            nodes is None && cur2 == cur && ts2 == squash_at(ts, cur)
        } else {
            let p = paragraph_from(ts, cur, Seq::empty());
            nodes == Some(p.0) && ts2 == ts && cur2 == p.1
        }
    } else {
        nodes is None && ts2 == ts && cur2 == cur
    }
}

/// The sequence of blocks (each a sequence of nodes) that block dispatch
/// produces from position `i` on, with paragraph accumulation as the
/// fallback when no construct matches and squash repair applied where a
/// construct fails. Blank stretches produce no block.
pub open spec fn spec_document(ts: Seq<TokenModel>, i: int) -> Seq<Seq<NodeModel>>
    decreases ts.len() - i,
    when 0 <= i
    via spec_document_decreases
{
    if i >= ts.len() {
        Seq::empty()
    } else if ts[i] is Hash && line_start_guard(ts, i) {
        let end = line_end(ts, i + 1);
        let hdr = seq![
            NodeModel::Header {
                level: (1 + hash_count(ts, i + 1, end)) as nat,
                content: header_text(ts, i + 1, end),
            },
        ];
        seq![hdr] + spec_document(
            ts,
            if end < ts.len() {
                end + 1
            } else {
                ts.len() as int
            },
        )
    } else if (ts[i] is Hash || ts[i] is OpenSquareBracket || ts[i] is Asterisk || ts[i]
        is Underscore) && construct_fails(ts, i) {
        let ts2 = squash_at(ts, i);
        let p = paragraph_from(ts2, i, Seq::empty());
        (if p.0.len() == 0 {
            Seq::empty()
        } else {
            seq![p.0]
        }) + spec_document(ts2, p.1)
    } else {
        let p = paragraph_from(ts, i, Seq::empty());
        (if p.0.len() == 0 {
            Seq::empty()
        } else {
            seq![p.0]
        }) + spec_document(ts, p.1)
    }
}

#[via_fn]
proof fn spec_document_decreases(ts: Seq<TokenModel>, i: int) {
    if 0 <= i < ts.len() {
        lemma_line_end_bounds(ts, i + 1);
        if (ts[i] is Hash || ts[i] is OpenSquareBracket || ts[i] is Asterisk || ts[i]
            is Underscore) && construct_fails(ts, i) && !(ts[i] is Hash && line_start_guard(
            ts,
            i,
        )) {
            let ts2 = squash_at(ts, i);
            assert(ts2.len() <= ts.len());
            lemma_paragraph_bounds(ts2, i, Seq::empty());
        } else {
            lemma_paragraph_bounds(ts, i, Seq::empty());
        }
    }
}

/// The models of a sequence of blocks.
pub open spec fn blocks_view(bs: Seq<Block>) -> Seq<Seq<NodeModel>> {
    bs.map_values(|b: Block| nodes_view(b.children@))
}

/// The parser: the materialized token sequence and the cursor.
pub struct Parser {
    pub lexer_tokens: Vec<MarkdownToken>,
    current: usize,
}

impl Parser {
    /// The models of the parser's tokens.
    pub closed spec fn toks(&self) -> Seq<TokenModel> {
        toks_view(self.lexer_tokens@)
    }

    /// The cursor: the index of the next token to be consumed.
    pub closed spec fn cursor(&self) -> int {
        self.current as int
    }

    /// A parser over the tokens of `content`, with the cursor at the start
    /// of the stream.
    pub fn new(content: &str) -> (p: Parser)
        ensures
            p.toks() == tokenize(content@),
            p.cursor() == 0,
    {
        Parser { lexer_tokens: lex_all(content), current: 0 }
    }

    /// A parser over the tokens of `content`, with the cursor supplied by
    /// the caller.
    pub fn with_current_at(content: &str, current: usize) -> (p: Parser)
        ensures
            p.toks() == tokenize(content@),
            p.cursor() == current,
    {
        Parser { lexer_tokens: lex_all(content), current }
    }

    /// The token at `current`, or `EndOfInput` past the end of the stream.
    fn peak_next(&self, current: &usize) -> (t: &MarkdownToken)
        ensures
            t@ == peek_model(self.toks(), *current as int),
    {
        if *current >= self.lexer_tokens.len() {
            return &MarkdownToken::EndOfInput;
        }
        &self.lexer_tokens[*current]
    }

    /// The token immediately before `current`, or `EndOfInput` when the
    /// cursor is at the start of the stream.
    fn peak_back(&self, current: &usize) -> (t: &MarkdownToken)
        ensures
            t@ == peek_model(self.toks(), *current as int - 1),
    {
        if *current == 0 || *current - 1 >= self.lexer_tokens.len() {
            return &MarkdownToken::EndOfInput;
        }
        &self.lexer_tokens[*current - 1]
    }

    /// Squashes the stray marker token at `current` into literal content,
    /// as [`squash_at`] describes. The cursor is left untouched.
    fn squash_stray_token(&mut self, current: &usize)
        requires
            (*current as int) < old(self).toks().len(),
            is_squashable(old(self).toks()[*current as int]),
        ensures
            final(self).toks() == squash_at(old(self).toks(), *current as int),
            final(self).cursor() == old(self).cursor(),
    {
        let i = *current;
        proof {
            assert(self.lexer_tokens@.len() == old(self).toks().len());
        }
        let marker_text: &str = match &self.lexer_tokens[i] {
            MarkdownToken::Hash => "#",
            MarkdownToken::Asterisk => "*",
            MarkdownToken::Underscore => "_",
            MarkdownToken::Backslash => "\\",
            MarkdownToken::OpenParen => "(",
            MarkdownToken::CloseParen => ")",
            MarkdownToken::OpenSquareBracket => "[",
            MarkdownToken::CloseSquareBracket => "]",
            MarkdownToken::Dash => "-",
            _ => "",
        };
        proof {
            reveal_strlit("#");
            reveal_strlit("*");
            reveal_strlit("_");
            reveal_strlit("\\");
            reveal_strlit("(");
            reveal_strlit(")");
            reveal_strlit("[");
            reveal_strlit("]");
            reveal_strlit("-");
            assert(marker_text@ == tok_text(self.toks()[i as int]));
        }
        let n = self.lexer_tokens.len();
        let prev_is_content = i > 0 && matches!(self.lexer_tokens[i - 1], MarkdownToken::Content(_));
        let next_is_content = i + 1 < n && matches!(
            self.lexer_tokens[i + 1],
            MarkdownToken::Content(_),
        );
        if prev_is_content {
            let mut merged = match &self.lexer_tokens[i - 1] {
                MarkdownToken::Content(a) => a.clone(),
                _ => String::new(),
            };
            merged.append(marker_text);
            if next_is_content {
                match &self.lexer_tokens[i + 1] {
                    MarkdownToken::Content(b) => {
                        merged.append(b.as_str());
                    },
                    _ => {},
                }
                self.lexer_tokens[i - 1] = MarkdownToken::Content(merged);
                self.lexer_tokens.remove(i);
                self.lexer_tokens.remove(i);
                proof {
                    assert(final(self).toks() =~= squash_at(old(self).toks(), i as int));
                }
            } else {
                self.lexer_tokens[i - 1] = MarkdownToken::Content(merged);
                self.lexer_tokens.remove(i);
                proof {
                    assert(final(self).toks() =~= squash_at(old(self).toks(), i as int));
                }
            }
        } else if next_is_content {
            let mut merged = marker_text.to_owned();
            match &self.lexer_tokens[i + 1] {
                MarkdownToken::Content(b) => {
                    merged.append(b.as_str());
                },
                _ => {},
            }
            self.lexer_tokens[i + 1] = MarkdownToken::Content(merged);
            self.lexer_tokens.remove(i);
            proof {
                assert(final(self).toks() =~= squash_at(old(self).toks(), i as int));
            }
        } else {
            self.lexer_tokens[i] = MarkdownToken::Content(marker_text.to_owned());
            proof {
                assert(final(self).toks() =~= squash_at(old(self).toks(), i as int));
            }
        }
    }
}

impl Parser {
    /// The repair pass: one sweep over the token sequence that removes
    /// every carriage-return token and squashes every `#` or `-` marker
    /// that is not anchored at the start of a line into neighbouring
    /// content. Markers that may still open a construct are left alone.
    pub fn first_pass(&mut self)
        ensures
            final(self).toks() == repair(old(self).toks()),
            final(self).cursor() == old(self).cursor(),
    {
        let ghost orig = self.toks();
        proof {
            assert(orig.take(0) =~= Seq::<TokenModel>::empty());
            assert(orig.skip(0) =~= orig);
        }
        let mut i: usize = 0;
        while i < self.lexer_tokens.len()
            invariant
                i <= self.lexer_tokens.len(),
                self.cursor() == old(self).cursor(),
                repair_step(self.toks().take(i as int), self.toks().skip(i as int)) == repair(
                    orig,
                ),
            decreases self.lexer_tokens.len() - i,
        {
            let ghost ts = self.toks();
            let is_hash = matches!(self.lexer_tokens[i], MarkdownToken::Hash);
            let is_dash = matches!(self.lexer_tokens[i], MarkdownToken::Dash);
            proof {
                assert(ts.skip(i as int)[0] == ts[i as int]);
                if i > 0 {
                    assert(ts.take(i as int).last() == ts[i as int - 1]);
                }
            }
            if matches!(self.lexer_tokens[i], MarkdownToken::CarriageReturn) {
                self.lexer_tokens.remove(i);
                proof {
                    assert(self.toks() =~= ts.remove(i as int));
                    assert(self.toks().take(i as int) =~= ts.take(i as int));
                    assert(self.toks().skip(i as int) =~= ts.skip(i as int).drop_first());
                }
            } else if is_hash || is_dash {
                let kept = i == 0 || match &self.lexer_tokens[i - 1] {
                    MarkdownToken::NewLine => true,
                    MarkdownToken::Hash => is_hash,
                    MarkdownToken::Dash => is_dash,
                    _ => false,
                };
                if kept {
                    proof {
                        assert(ts.take(i as int).push(ts[i as int]) =~= ts.take(i as int + 1));
                        assert(ts.skip(i as int).drop_first() =~= ts.skip(i as int + 1));
                    }
                    i = i + 1;
                } else {
                    let prev_is_content = matches!(
                        self.lexer_tokens[i - 1],
                        MarkdownToken::Content(_),
                    );
                    proof {
                        lemma_squash_repair_step(ts, i as int);
                    }
                    self.squash_stray_token(&i);
                    if !prev_is_content {
                        i = i + 1;
                    }
                }
            } else {
                proof {
                    assert(ts.take(i as int).push(ts[i as int]) =~= ts.take(i as int + 1));
                    assert(ts.skip(i as int).drop_first() =~= ts.skip(i as int + 1));
                }
                i = i + 1;
            }
        }
        proof {
            assert(self.toks().take(i as int) =~= self.toks());
            assert(self.toks().skip(i as int).len() == 0);
        }
    }

    /// Attempts to parse a header construct at the cursor.
    ///
    /// A `#` at the cursor opens a header only when it sits at the start
    /// of a line: at the start of the stream, or immediately after a
    /// newline. On success the whole line is consumed: every further `#`
    /// before the line end raises the level, the text of every `Content`
    /// token is appended to the header's content, other tokens are passed
    /// over, and the cursor is left just past the terminating newline (or
    /// at the end of the stream). The result is a single-node block.
    ///
    /// When the `#` is not at a line start, it is squashed into
    /// neighbouring content ([`squash_at`]) and `None` is returned with
    /// the cursor unmoved. With no `#` at the cursor at all, nothing
    /// changes and `None` is returned.
    pub fn parse_hashtag(&mut self) -> (r: Option<Block>)
        ensures
            hashtag_post(
                old(self).toks(),
                old(self).cursor(),
                final(self).toks(),
                final(self).cursor(),
                match r {
                    Some(b) => Some(nodes_view(b.children@)),
                    None => None,
                },
            ),
    {
        let cur = self.current;
        if !matches!(self.peak_next(&cur), MarkdownToken::Hash) {
            return None;
        }
        let is_header = matches!(
            self.peak_back(&cur),
            MarkdownToken::NewLine | MarkdownToken::EndOfInput
        );
        if !is_header {
            self.squash_stray_token(&cur);
            return None;
        }
        let ghost ts = self.toks();
        let ghost end = line_end(ts, cur as int + 1);
        let n = self.lexer_tokens.len();
        proof {
            assert(cur < n);
            lemma_line_end_bounds(ts, cur as int + 1);
        }
        let mut level: usize = 1;
        let mut content = String::new();
        self.current = cur + 1;
        loop
            invariant_except_break
                cur as int + 1 <= self.current as int <= end,
                line_end(ts, self.current as int) == end,
                level as int == 1 + hash_count(ts, cur as int + 1, self.current as int),
                level as int <= self.current as int - cur as int,
                content@ == header_text(ts, cur as int + 1, self.current as int),
            invariant
                self.toks() == ts,
                end == line_end(ts, cur as int + 1),
                end <= ts.len(),
            ensures
                self.toks() == ts,
                level as int == 1 + hash_count(ts, cur as int + 1, end),
                content@ == header_text(ts, cur as int + 1, end),
                self.current as int == (if end < ts.len() {
                    end + 1
                } else {
                    ts.len() as int
                }),
            decreases ts.len() - self.current,
        {
            let idx = self.current;
            if idx >= self.lexer_tokens.len() {
                break;
            }
            proof {
                assert(ts[idx as int] == self.lexer_tokens@[idx as int]@);
            }
            match &self.lexer_tokens[idx] {
                MarkdownToken::Hash => {
                    level = level + 1;
                },
                MarkdownToken::Content(s) => {
                    content.append(s.as_str());
                },
                MarkdownToken::NewLine => {
                    self.current = idx + 1;
                    break;
                },
                _ => {},
            }
            self.current = idx + 1;
            proof {
                lemma_line_end_bounds(ts, idx as int + 1);
                assert(content@ == header_text(ts, cur as int + 1, idx as int + 1));
            }
        }
        let b = Block { children: vec![ParsedToken::Header { level, content }] };
        proof {
            assert(nodes_view(b.children@) =~= seq![
                NodeModel::Header {
                    level: (1 + hash_count(ts, cur as int + 1, end)) as nat,
                    content: header_text(ts, cur as int + 1, end),
                },
            ]);
        }
        Some(b)
    }

    /// The position of the first token equal to `close` at or after
    /// `from`, or `None` when a blank-line block boundary or the end of
    /// the stream comes first.
    fn find_close_from(&self, from: usize, close: &MarkdownToken) -> (r: Option<usize>)
        requires
            close@ is CloseSquareBracket || close@ is CloseParen || close@ is Asterisk || close@
                is Underscore,
        ensures
            ({
                let f = find_close(self.toks(), from as int, close@);
                match r {
                    Some(j) => f == j as int && (j as int) < self.toks().len(),
                    None => f == -1,
                }
            }),
    {
        let mut j = from;
        let n = self.lexer_tokens.len();
        while j < n
            invariant
                n == self.toks().len(),
                from <= j,
                close@ is CloseSquareBracket || close@ is CloseParen || close@ is Asterisk
                    || close@ is Underscore,
                find_close(self.toks(), from as int, close@) == find_close(
                    self.toks(),
                    j as int,
                    close@,
                ),
            decreases n - j,
        {
            proof {
                assert(self.toks()[j as int] == self.lexer_tokens@[j as int]@);
            }
            if token_matches(&self.lexer_tokens[j], close) {
                return Some(j);
            }
            if matches!(self.lexer_tokens[j], MarkdownToken::NewLine) && j + 1 < n && matches!(
                self.lexer_tokens[j + 1],
                MarkdownToken::NewLine,
            ) {
                return None;
            }
            j = j + 1;
        }
        None
    }

    /// The concatenated literal text of the tokens among positions
    /// `from..to`.
    fn range_to_string(&self, from: usize, to: usize) -> (s: String)
        requires
            from <= to,
            to as int <= self.toks().len(),
        ensures
            s@ == range_text(self.toks(), from as int, to as int),
    {
        let mut s = String::new();
        let mut j = from;
        while j < to
            invariant
                from <= j <= to,
                to as int <= self.toks().len(),
                s@ == range_text(self.toks(), from as int, j as int),
            decreases to - j,
        {
            proof {
                assert(self.toks()[j as int] == self.lexer_tokens@[j as int]@);
            }
            append_tok_text(&mut s, &self.lexer_tokens[j]);
            j = j + 1;
        }
        s
    }

    /// Attempts a link construct at `at`, as [`link_at`] describes.
    fn try_link(&self, at: usize) -> (r: Option<(ParsedToken, usize)>)
        requires
            (at as int) < self.toks().len(),
        ensures
            ({
                let l = link_at(self.toks(), at as int);
                match r {
                    Some(p) => {
                        &&& l matches Some(m) && p.0@ == m.0 && p.1 as int == m.1
                        &&& at < p.1 && p.1 as int <= self.toks().len()
                    },
                    None => l is None,
                }
            }),
    {
        let n = self.lexer_tokens.len();
        proof {
            lemma_find_close_bounds(self.toks(), at as int + 1, TokenModel::CloseSquareBracket);
        }
        let close_b = match self.find_close_from(at + 1, &MarkdownToken::CloseSquareBracket) {
            Some(j) => j,
            None => {
                return None;
            },
        };
        if !(close_b + 1 < n) {
            return None;
        }
        proof {
            assert(self.toks()[close_b as int + 1] == self.lexer_tokens@[close_b as int + 1]@);
        }
        if !matches!(self.lexer_tokens[close_b + 1], MarkdownToken::OpenParen) {
            return None;
        }
        proof {
            lemma_find_close_bounds(self.toks(), close_b as int + 2, TokenModel::CloseParen);
        }
        let close_p = match self.find_close_from(close_b + 2, &MarkdownToken::CloseParen) {
            Some(j) => j,
            None => {
                return None;
            },
        };
        let text = self.range_to_string(at + 1, close_b);
        let href = self.range_to_string(close_b + 2, close_p);
        Some((ParsedToken::Link { text, href }, close_p + 1))
    }

    /// Attempts an emphasis span opened at `at` and closed by `close`, as
    /// [`span_at`] describes.
    fn try_span(&self, at: usize, close: &MarkdownToken) -> (r: Option<(String, usize)>)
        requires
            (at as int) < self.toks().len(),
            close@ is Asterisk || close@ is Underscore,
        ensures
            ({
                let l = span_at(self.toks(), at as int, close@);
                match r {
                    Some(p) => {
                        &&& l matches Some(m) && p.0@ == m.0 && p.1 as int == m.1
                        &&& at < p.1 && p.1 as int <= self.toks().len()
                    },
                    None => l is None,
                }
            }),
    {
        let n = self.lexer_tokens.len();
        proof {
            lemma_find_close_bounds(self.toks(), at as int + 1, close@);
        }
        let c = match self.find_close_from(at + 1, close) {
            Some(j) => j,
            None => {
                return None;
            },
        };
        let text = self.range_to_string(at + 1, c);
        Some((text, c + 1))
    }

    /// Consumes one paragraph at the cursor, as [`paragraph_from`]
    /// describes: literal text accumulates into `Text` nodes, matching
    /// containers become `Link`, `Bold` or `Italic` nodes, and markers
    /// whose construct fails to match join the literal text. The paragraph
    /// ends at a blank line, just before a header line, or at the end of
    /// the stream.
    pub fn parse_paragraph(&mut self) -> (b: Block)
        ensures
            final(self).toks() == old(self).toks(),
            nodes_view(b.children@) == paragraph_from(
                old(self).toks(),
                old(self).cursor(),
                Seq::empty(),
            ).0,
            final(self).cursor() == paragraph_from(
                old(self).toks(),
                old(self).cursor(),
                Seq::empty(),
            ).1,
    {
        let ghost ts = self.toks();
        let ghost target = paragraph_from(ts, self.cursor(), Seq::<char>::empty());
        let mut children: Vec<ParsedToken> = Vec::new();
        let mut acc = String::new();
        if self.current >= self.lexer_tokens.len() {
            self.current = self.lexer_tokens.len();
            proof {
                assert(nodes_view(children@) =~= Seq::<NodeModel>::empty());
                assert(target.0 == flush(Seq::<char>::empty()));
                assert(nodes_view(children@) == target.0);
            }
            return Block { children };
        }
        loop
            invariant_except_break
                self.toks() == ts,
                self.current as int <= ts.len(),
                ({
                    let c = paragraph_from(ts, self.current as int, acc@);
                    target.0 == nodes_view(children@) + c.0 && target.1 == c.1
                }),
            ensures
                self.toks() == ts,
                target.0 == nodes_view(children@) + flush(acc@),
                target.1 == self.current as int,
            decreases ts.len() - self.current,
        {
            let idx = self.current;
            let n = self.lexer_tokens.len();
            if idx >= n {
                break;
            }
            proof {
                assert(ts[idx as int] == self.lexer_tokens@[idx as int]@);
            }
            if matches!(self.lexer_tokens[idx], MarkdownToken::NewLine) {
                if idx + 1 >= n {
                    self.current = idx + 1;
                    break;
                }
                proof {
                    assert(ts[idx as int + 1] == self.lexer_tokens@[idx as int + 1]@);
                }
                if matches!(self.lexer_tokens[idx + 1], MarkdownToken::NewLine) {
                    self.current = idx + 2;
                    break;
                }
                if matches!(self.lexer_tokens[idx + 1], MarkdownToken::Hash) {
                    self.current = idx + 1;
                    break;
                }
                proof {
                    reveal_strlit("\n");
                    assert(acc@ + "\n"@ =~= acc@.push('\n'));
                }
                acc.append("\n");
                self.current = idx + 1;
            } else if matches!(self.lexer_tokens[idx], MarkdownToken::OpenSquareBracket) {
                match self.try_link(idx) {
                    Some((node, nxt)) => {
                        let ghost old_children = children@;
                        let ghost old_acc = acc@;
                        if !acc.as_str().is_empty() {
                            children.push(ParsedToken::Text { content: acc });
                            acc = String::new();
                        }
                        children.push(node);
                        self.current = nxt;
                        proof {
                            assert(acc@ =~= Seq::<char>::empty());
                            assert(nodes_view(children@) =~= nodes_view(old_children) + flush(
                                old_acc,
                            ) + seq![node@]);
                            lemma_paragraph_container_step(
                                ts,
                                idx as int,
                                old_acc,
                                nodes_view(old_children),
                                target.0,
                                target.1,
                            );
                        }
                    },
                    None => {
                        append_tok_text(&mut acc, &self.lexer_tokens[idx]);
                        self.current = idx + 1;
                    },
                }
            } else if matches!(self.lexer_tokens[idx], MarkdownToken::Asterisk) {
                match self.try_span(idx, &MarkdownToken::Asterisk) {
                    Some((text, nxt)) => {
                        let ghost old_children = children@;
                        let ghost old_acc = acc@;
                        if !acc.as_str().is_empty() {
                            children.push(ParsedToken::Text { content: acc });
                            acc = String::new();
                        }
                        let node = ParsedToken::Bold { content: text };
                        children.push(node);
                        self.current = nxt;
                        proof {
                            assert(acc@ =~= Seq::<char>::empty());
                            assert(nodes_view(children@) =~= nodes_view(old_children) + flush(
                                old_acc,
                            ) + seq![node@]);
                            lemma_paragraph_container_step(
                                ts,
                                idx as int,
                                old_acc,
                                nodes_view(old_children),
                                target.0,
                                target.1,
                            );
                        }
                    },
                    None => {
                        append_tok_text(&mut acc, &self.lexer_tokens[idx]);
                        self.current = idx + 1;
                    },
                }
            } else if matches!(self.lexer_tokens[idx], MarkdownToken::Underscore) {
                match self.try_span(idx, &MarkdownToken::Underscore) {
                    Some((text, nxt)) => {
                        let ghost old_children = children@;
                        let ghost old_acc = acc@;
                        if !acc.as_str().is_empty() {
                            children.push(ParsedToken::Text { content: acc });
                            acc = String::new();
                        }
                        let node = ParsedToken::Italic { content: text };
                        children.push(node);
                        self.current = nxt;
                        proof {
                            assert(acc@ =~= Seq::<char>::empty());
                            assert(nodes_view(children@) =~= nodes_view(old_children) + flush(
                                old_acc,
                            ) + seq![node@]);
                            lemma_paragraph_container_step(
                                ts,
                                idx as int,
                                old_acc,
                                nodes_view(old_children),
                                target.0,
                                target.1,
                            );
                        }
                    },
                    None => {
                        append_tok_text(&mut acc, &self.lexer_tokens[idx]);
                        self.current = idx + 1;
                    },
                }
            } else {
                append_tok_text(&mut acc, &self.lexer_tokens[idx]);
                self.current = idx + 1;
            }
        }
        if !acc.as_str().is_empty() {
            let ghost old_children = children@;
            let ghost old_acc = acc@;
            children.push(ParsedToken::Text { content: acc });
            proof {
                assert(nodes_view(children@) =~= nodes_view(old_children) + flush(old_acc));
            }
        } else {
            proof {
                assert(nodes_view(children@) + flush(acc@) =~= nodes_view(children@));
            }
        }
        Block { children }
    }

    /// Attempts to consume one block at the cursor, as [`block_post`]
    /// describes. Construct dispatch tries, in order, a header, a link, a
    /// bold span and an italic span; the first construct whose opening
    /// marker sits at the cursor decides the attempt. On a match the block
    /// (for containers: the whole surrounding paragraph) is consumed; on a
    /// failed construct the stray marker is squashed into literal content
    /// and `None` is returned with the cursor unmoved; at plain content,
    /// `None` is returned with nothing changed.
    pub fn parse_next_block(&mut self) -> (r: Option<Block>)
        ensures
            block_post(
                old(self).toks(),
                old(self).cursor(),
                final(self).toks(),
                final(self).cursor(),
                match r {
                    Some(b) => Some(nodes_view(b.children@)),
                    None => None,
                },
            ),
    {
        let cur = self.current;
        let n = self.lexer_tokens.len();
        if cur >= n {
            return None;
        }
        proof {
            assert(self.toks()[cur as int] == self.lexer_tokens@[cur as int]@);
        }
        if matches!(self.lexer_tokens[cur], MarkdownToken::Hash) {
            return self.parse_hashtag();
        }
        if matches!(self.lexer_tokens[cur], MarkdownToken::OpenSquareBracket) {
            match self.try_link(cur) {
                Some(_) => {
                    let b = self.parse_paragraph();
                    return Some(b);
                },
                None => {
                    self.squash_stray_token(&cur);
                    return None;
                },
            }
        }
        if matches!(self.lexer_tokens[cur], MarkdownToken::Asterisk) {
            match self.try_span(cur, &MarkdownToken::Asterisk) {
                Some(_) => {
                    let b = self.parse_paragraph();
                    return Some(b);
                },
                None => {
                    self.squash_stray_token(&cur);
                    return None;
                },
            }
        }
        if matches!(self.lexer_tokens[cur], MarkdownToken::Underscore) {
            match self.try_span(cur, &MarkdownToken::Underscore) {
                Some(_) => {
                    let b = self.parse_paragraph();
                    return Some(b);
                },
                None => {
                    self.squash_stray_token(&cur);
                    return None;
                },
            }
        }
        None
    }

    /// Drives the parser to exhaustion: first the repair pass, then block
    /// dispatch with paragraph accumulation as the fallback, until the
    /// token sequence is consumed. The blocks of the whole document are
    /// returned; blank stretches produce no block, so every block holds at
    /// least one node.
    pub fn parse_document(&mut self) -> (blocks: Vec<Block>)
        ensures
            blocks_view(blocks@) == spec_document(repair(old(self).toks()), old(self).cursor()),
    {
        self.first_pass();
        let ghost target = spec_document(repair(old(self).toks()), old(self).cursor());
        let mut blocks: Vec<Block> = Vec::new();
        proof {
            assert(blocks_view(blocks@) =~= Seq::<Seq<NodeModel>>::empty());
            assert(blocks_view(blocks@) + spec_document(self.toks(), self.cursor()) =~= target);
        }
        while self.current < self.lexer_tokens.len()
            invariant
                blocks_view(blocks@) + spec_document(self.toks(), self.cursor()) == target,
            decreases self.lexer_tokens.len() - self.current,
        {
            let ghost ts_i = self.toks();
            let ghost cur_i = self.cursor();
            let ghost blocks_i = blocks@;
            proof {
                assert(ts_i[cur_i] == self.lexer_tokens@[cur_i]@);
                lemma_line_end_bounds(ts_i, cur_i + 1);
            }
            let r = self.parse_next_block();
            match r {
                Some(b) => {
                    proof {
                        lemma_blocks_view_push(blocks@, b);
                        if ts_i[cur_i] is Hash {
                            assert(blocks_view(blocks@.push(b)) + spec_document(
                                self.toks(),
                                self.cursor(),
                            ) =~= target);
                        } else {
                            let p = paragraph_from(ts_i, cur_i, Seq::<char>::empty());
                            lemma_paragraph_bounds(ts_i, cur_i, Seq::<char>::empty());
                            assert(p.0.len() >= 1);
                            assert(blocks_view(blocks@.push(b)) + spec_document(
                                self.toks(),
                                self.cursor(),
                            ) =~= target);
                        }
                    }
                    blocks.push(b);
                },
                None => {
                    let ghost ts_m = self.toks();
                    proof {
                        lemma_paragraph_bounds(ts_m, cur_i, Seq::<char>::empty());
                        assert(ts_m.len() <= ts_i.len());
                    }
                    let pb = self.parse_paragraph();
                    if !pb.children.is_empty() {
                        proof {
                            lemma_blocks_view_push(blocks@, pb);
                            let p = paragraph_from(ts_m, cur_i, Seq::<char>::empty());
                            assert(nodes_view(pb.children@) == p.0);
                            assert(blocks_view(blocks@.push(pb)) + spec_document(
                                self.toks(),
                                self.cursor(),
                            ) =~= target);
                        }
                        blocks.push(pb);
                    } else {
                        proof {
                            let p = paragraph_from(ts_m, cur_i, Seq::<char>::empty());
                            assert(nodes_view(pb.children@).len() == 0);
                            assert(blocks_view(blocks@) + spec_document(
                                self.toks(),
                                self.cursor(),
                            ) =~= target);
                        }
                    }
                },
            }
        }
        proof {
            assert(spec_document(self.toks(), self.cursor()) =~= Seq::<Seq<NodeModel>>::empty());
            assert(blocks_view(blocks@) =~= target);
        }
        blocks
    }
}

proof fn lemma_blocks_view_push(bs: Seq<Block>, b: Block)
    ensures
        blocks_view(bs.push(b)) == blocks_view(bs).push(nodes_view(b.children@)),
{
    assert(blocks_view(bs.push(b)) =~= blocks_view(bs).push(nodes_view(b.children@)));
}

/// In the container cases of [`paragraph_from`], the nodes gathered so
/// far, the flushed text run and the container's node prepend to the rest
/// of the paragraph.
proof fn lemma_paragraph_container_step(
    ts: Seq<TokenModel>,
    i: int,
    acc: Seq<char>,
    gathered: Seq<NodeModel>,
    target0: Seq<NodeModel>,
    target1: int,
)
    requires
        0 <= i < ts.len(),
        ({
            ||| (ts[i] is OpenSquareBracket && link_at(ts, i) is Some)
            ||| (ts[i] is Asterisk && span_at(ts, i, TokenModel::Asterisk) is Some)
            ||| (ts[i] is Underscore && span_at(ts, i, TokenModel::Underscore) is Some)
        }),
        target0 == gathered + paragraph_from(ts, i, acc).0,
        target1 == paragraph_from(ts, i, acc).1,
    ensures
        ({
            let node = if ts[i] is OpenSquareBracket {
                link_at(ts, i)->Some_0.0
            } else if ts[i] is Asterisk {
                NodeModel::Bold { content: span_at(ts, i, TokenModel::Asterisk)->Some_0.0 }
            } else {
                NodeModel::Italic { content: span_at(ts, i, TokenModel::Underscore)->Some_0.0 }
            };
            let nxt = if ts[i] is OpenSquareBracket {
                link_at(ts, i)->Some_0.1
            } else if ts[i] is Asterisk {
                span_at(ts, i, TokenModel::Asterisk)->Some_0.1
            } else {
                span_at(ts, i, TokenModel::Underscore)->Some_0.1
            };
            let rest = paragraph_from(ts, nxt, Seq::<char>::empty());
            &&& target0 == (gathered + flush(acc) + seq![node]) + rest.0
            &&& target1 == rest.1
        }),
{
    if ts[i] is OpenSquareBracket {
        let m = link_at(ts, i)->Some_0;
        let rest = paragraph_from(ts, m.1, Seq::<char>::empty());
        assert(gathered + (flush(acc) + seq![m.0] + rest.0) =~= (gathered + flush(acc) + seq![
            m.0,
        ]) + rest.0);
    } else if ts[i] is Asterisk {
        let m = span_at(ts, i, TokenModel::Asterisk)->Some_0;
        let node = NodeModel::Bold { content: m.0 };
        let rest = paragraph_from(ts, m.1, Seq::<char>::empty());
        assert(gathered + (flush(acc) + seq![node] + rest.0) =~= (gathered + flush(acc) + seq![
            node,
        ]) + rest.0);
    } else {
        let m = span_at(ts, i, TokenModel::Underscore)->Some_0;
        let node = NodeModel::Italic { content: m.0 };
        let rest = paragraph_from(ts, m.1, Seq::<char>::empty());
        assert(gathered + (flush(acc) + seq![node] + rest.0) =~= (gathered + flush(acc) + seq![
            node,
        ]) + rest.0);
    }
}

/// Whether `t` is a token of the same shape as the closing marker `c`.
fn token_matches(t: &MarkdownToken, c: &MarkdownToken) -> (b: bool)
    requires
        c@ is CloseSquareBracket || c@ is CloseParen || c@ is Asterisk || c@ is Underscore,
    ensures
        b == (t@ == c@),
{
    match (t, c) {
        (MarkdownToken::CloseSquareBracket, MarkdownToken::CloseSquareBracket) => true,
        (MarkdownToken::CloseParen, MarkdownToken::CloseParen) => true,
        (MarkdownToken::Asterisk, MarkdownToken::Asterisk) => true,
        (MarkdownToken::Underscore, MarkdownToken::Underscore) => true,
        _ => false,
    }
}

/// Appends the literal text of `t` to `acc`.
fn append_tok_text(acc: &mut String, t: &MarkdownToken)
    ensures
        final(acc)@ == old(acc)@ + tok_text(t@),
{
    proof {
        reveal_strlit("#");
        reveal_strlit("*");
        reveal_strlit("_");
        reveal_strlit("\\");
        reveal_strlit("(");
        reveal_strlit(")");
        reveal_strlit("[");
        reveal_strlit("]");
        reveal_strlit("-");
        reveal_strlit("\r");
        reveal_strlit("\n");
    }
    match t {
        MarkdownToken::Content(s) => acc.append(s.as_str()),
        MarkdownToken::Hash => acc.append("#"),
        MarkdownToken::Asterisk => acc.append("*"),
        MarkdownToken::Underscore => acc.append("_"),
        MarkdownToken::Backslash => acc.append("\\"),
        MarkdownToken::OpenParen => acc.append("("),
        MarkdownToken::CloseParen => acc.append(")"),
        MarkdownToken::OpenSquareBracket => acc.append("["),
        MarkdownToken::CloseSquareBracket => acc.append("]"),
        MarkdownToken::Dash => acc.append("-"),
        MarkdownToken::CarriageReturn => acc.append("\r"),
        MarkdownToken::NewLine => acc.append("\n"),
        MarkdownToken::EndOfInput => {
            proof {
                assert(old(acc)@ + tok_text(t@) =~= old(acc)@);
            }
        },
    }
}

/// Drains a fresh lexer over `content` into a vector of tokens.
fn lex_all(content: &str) -> (r: Vec<MarkdownToken>)
    ensures
        toks_view(r@) == tokenize(content@),
{
    let mut lexer = Lexer::new(content);
    let mut tokens: Vec<MarkdownToken> = Vec::new();
    loop
        invariant
            lexer.wf(),
            lexer.text() == content@,
            0 <= lexer.cursor() <= content@.len(),
            toks_view(tokens@) + tokenize_from(content@, lexer.cursor()) == tokenize(
                content@,
            ),
        decreases content@.len() - lexer.cursor(),
    {
        let t = lexer.next();
        match t {
            Some(t) => {
                proof {
                    assert(toks_view(tokens@.push(t)) =~= toks_view(tokens@).push(t@));
                    assert(toks_view(tokens@).push(t@) + tokenize_from(
                        content@,
                        lexer.cursor(),
                    ) =~= toks_view(tokens@) + (seq![t@] + tokenize_from(
                        content@,
                        lexer.cursor(),
                    )));
                }
                tokens.push(t);
            },
            None => {
                proof {
                    assert(tokenize_from(content@, lexer.cursor()) =~= Seq::<
                        TokenModel,
                    >::empty());
                    assert(toks_view(tokens@) =~= tokenize(content@));
                }
                return tokens;
            },
        }
    }
}

} // verus!

use crate::frontend::{lemma_nodes_of_empty, lemma_nodes_of_push, node_of, nodes_of, Expr, Node};
use vstd::prelude::*;
use vstd::string::StringSliceAdditionalSpecFns;

verus! {

/// A source text that is no program: a bracket in it has no partner.
#[derive(Debug, Clone, Copy, PartialEq, Eq, Structural)]
pub struct ParseError {
    /// The byte offset of the first `]` that closes nothing, or the length of
    /// the text where a `[` is still open at its end.
    pub position: usize,
}

/// The eight bytes that are commands. Every other byte is a comment.
pub open spec fn significant(b: u8) -> bool {
    b == 0x2b || b == 0x2d || b == 0x3e || b == 0x3c || b == 0x2e || b == 0x2c || b == 0x5b || b
        == 0x5d
}

/// The commands of a text, in order, with the comments left out.
pub open spec fn commands(text: Seq<u8>) -> Seq<u8>
    decreases text.len(),
{
    if text.len() == 0 {
        Seq::empty()
    } else if significant(text.last()) {
        commands(text.drop_last()).push(text.last())
    } else {
        commands(text.drop_last())
    }
}

/// How many `[` of a text are still open at its end; negative where more `]`
/// than `[` stand in it.
pub open spec fn depth(text: Seq<u8>) -> int
    decreases text.len(),
{
    if text.len() == 0 {
        0
    } else if text.last() == 0x5b {
        depth(text.drop_last()) + 1
    } else if text.last() == 0x5d {
        depth(text.drop_last()) - 1
    } else {
        depth(text.drop_last())
    }
}

/// No `]` among the first `n` bytes closes what is not open.
pub open spec fn closes_nothing_early(text: Seq<u8>, n: int) -> bool {
    forall|j: int| 0 <= j <= n && j <= text.len() ==> depth(#[trigger] text.take(j)) >= 0
}

/// A text whose brackets match: every `]` closes a `[`, and none stays open.
pub open spec fn balanced(text: Seq<u8>) -> bool {
    depth(text) == 0 && closes_nothing_early(text, text.len() as int)
}

/// The nodes that the parser makes: single steps at offset 0, and loops of such.
pub open spec fn plain(e: Node) -> bool
    decreases e,
{
    match e {
        Node::Add(count, offset) => (count == 1 || count == -1) && offset == 0,
        Node::Move(offset) => offset == 1 || offset == -1,
        Node::Out(offset) => offset == 0,
        Node::In(offset) => offset == 0,
        Node::Loop(body) => forall|i: int| 0 <= i < body.len() ==> plain(#[trigger] body[i]),
        _ => false,
    }
}

/// A program of plain nodes.
pub open spec fn all_plain(prog: Seq<Node>) -> bool {
    forall|i: int| 0 <= i < prog.len() ==> plain(#[trigger] prog[i])
}

/// The text of one plain node.
pub open spec fn written_one(e: Node) -> Seq<u8>
    decreases e, 0nat,
{
    match e {
        Node::Add(count, _) => if count == 1 {
            seq![0x2bu8]
        } else {
            seq![0x2du8]
        },
        Node::Move(offset) => if offset == 1 {
            seq![0x3eu8]
        } else {
            seq![0x3cu8]
        },
        Node::Out(_) => seq![0x2eu8],
        Node::In(_) => seq![0x2cu8],
        Node::Loop(body) => (seq![0x5bu8] + written(body, body.len())).push(0x5du8),
        _ => Seq::empty(),
    }
}

/// The text of the first `n` nodes of a program.
pub open spec fn written(prog: Seq<Node>, n: nat) -> Seq<u8>
    decreases prog, n,
{
    if n == 0 || n > prog.len() {
        Seq::empty()
    } else {
        written(prog, (n - 1) as nat) + written_one(prog[n - 1])
    }
}

/// What a parse error says of the text: up to `position` no `]` closes what is
/// not open, and there either such a `]` stands, or the text ends with a `[` open.
pub open spec fn offends(text: Seq<u8>, position: int) -> bool {
    &&& 0 <= position <= text.len()
    &&& closes_nothing_early(text, position)
    &&& if position < text.len() {
        depth(text.take(position + 1)) < 0
    } else {
        depth(text) > 0
    }
}

/// The commands of two texts in a row are the commands of the one, then of the other.
pub proof fn lemma_commands_concat(a: Seq<u8>, b: Seq<u8>)
    ensures
        commands(a + b) == commands(a) + commands(b),
    decreases b.len(),
{
    if b.len() == 0 {
        assert(a + b =~= a);
        assert(commands(a) + commands(b) =~= commands(a));
    } else {
        assert((a + b).drop_last() =~= a + b.drop_last());
        lemma_commands_concat(a, b.drop_last());
        if significant(b.last()) {
            assert(commands(a + b) =~= commands(a) + commands(b));
        }
    }
}

/// One byte more changes the depth by what that byte opens or closes.
pub proof fn lemma_depth_step(text: Seq<u8>, j: int)
    requires
        0 <= j < text.len(),
    ensures
        depth(text.take(j + 1)) == depth(text.take(j)) + if text[j] == 0x5b {
            1int
        } else if text[j] == 0x5d {
            -1int
        } else {
            0int
        },
{
    assert(text.take(j + 1).drop_last() =~= text.take(j));
}

/// One byte more adds that byte to the commands, if it is one.
pub proof fn lemma_commands_step(text: Seq<u8>, from: int, j: int)
    requires
        0 <= from <= j < text.len(),
    ensures
        commands(text.subrange(from, j + 1)) == if significant(text[j]) {
            commands(text.subrange(from, j)).push(text[j])
        } else {
            commands(text.subrange(from, j))
        },
{
    assert(text.subrange(from, j + 1).drop_last() =~= text.subrange(from, j));
}

/// Nodes behind the first `n` do not change the text of the first `n`.
pub proof fn lemma_written_prefix(prog: Seq<Node>, e: Node, n: nat)
    requires
        n <= prog.len(),
    ensures
        written(prog.push(e), n) == written(prog, n),
    decreases n,
{
    if n > 0 {
        lemma_written_prefix(prog, e, (n - 1) as nat);
    }
}

/// The text of a program with one node more is its text with that node's behind.
pub proof fn lemma_written_push(prog: Seq<Node>, e: Node)
    ensures
        written(prog.push(e), prog.len() + 1) == written(prog, prog.len()) + written_one(e),
{
    lemma_written_prefix(prog, e, prog.len());
}

/// Parses the nodes that start at `start`: up to the `]` that closes the loop
/// around them if they are `nested`, else up to the end of the text.
fn parse_items(src: &[u8], start: usize, nested: bool) -> (result: Result<
    (Vec<Expr>, usize),
    ParseError,
>)
    requires
        start <= src@.len(),
        closes_nothing_early(src@, start as int),
        nested ==> depth(src@.take(start as int)) >= 1,
        !nested ==> start == 0,
    ensures
        match result {
            Ok((items, end)) => {
                &&& start <= end <= src@.len()
                &&& all_plain(nodes_of(items@))
                &&& written(nodes_of(items@), items@.len()) == commands(
                    src@.subrange(start as int, end as int),
                )
                &&& closes_nothing_early(src@, end as int)
                &&& depth(src@.take(end as int)) == depth(src@.take(start as int))
                &&& if nested {
                    end < src@.len() && src@[end as int] == 0x5d
                } else {
                    end == src@.len()
                }
            },
            Err(e) => offends(src@, e.position as int),
        },
    decreases src@.len() - start,
{
    let n = src.len();
    let ghost text = src@;
    let ghost level = depth(text.take(start as int));
    let mut items: Vec<Expr> = Vec::new();
    let mut i: usize = start;
    proof {
        lemma_nodes_of_empty();
        assert(text.subrange(start as int, start as int) =~= Seq::<u8>::empty());
    }
    while i < n
        invariant
            start <= i <= n,
            n == src@.len(),
            text == src@,
            level == depth(text.take(start as int)),
            nested ==> level >= 1,
            !nested ==> level == 0,
            all_plain(nodes_of(items@)),
            nodes_of(items@).len() == items@.len(),
            written(nodes_of(items@), items@.len()) == commands(
                text.subrange(start as int, i as int),
            ),
            closes_nothing_early(text, i as int),
            depth(text.take(i as int)) == level,
        decreases n - i,
    {
        let b = src[i];
        let ghost before = nodes_of(items@);
        proof {
            lemma_depth_step(text, i as int);
            lemma_commands_step(text, start as int, i as int);
        }
        if b == 0x5b {
            proof {
                assert forall|j: int| 0 <= j <= i + 1 && j <= text.len() implies depth(
                    #[trigger] text.take(j),
                ) >= 0 by {}
            }
            match parse_items(src, i + 1, true) {
                Ok((body, close)) => {
                    let e = Expr::Loop(body);
                    proof {
                        let inner = text.subrange(i + 1, close as int);
                        lemma_nodes_of_push(items@, e);
                        lemma_written_push(before, node_of(e));
                        lemma_depth_step(text, close as int);
                        lemma_commands_step(text, start as int, close as int);
                        assert(text.subrange(start as int, close as int) =~= text.subrange(
                            start as int,
                            i + 1,
                        ) + inner);
                        lemma_commands_concat(text.subrange(start as int, i + 1), inner);
                        assert(written_one(node_of(e)) =~= (seq![0x5bu8] + commands(inner)).push(
                            0x5du8,
                        ));
                        assert(written(nodes_of(items@.push(e)), (items@.len() + 1) as nat)
                            =~= commands(text.subrange(start as int, close + 1)));
                        assert forall|j: int| 0 <= j <= close + 1 && j <= text.len() implies depth(
                            #[trigger] text.take(j),
                        ) >= 0 by {}
                        assert(all_plain(nodes_of(items@.push(e)))) by {
                            assert forall|k: int|
                                0 <= k < nodes_of(items@.push(e)).len() implies plain(
                                #[trigger] nodes_of(items@.push(e))[k],
                            ) by {
                                if k < before.len() {
                                    assert(before[k] == nodes_of(items@.push(e))[k]);
                                }
                            }
                        }
                    }
                    items.push(e);
                    i = close + 1;
                },
                Err(e) => {
                    return Err(e);
                },
            }
        } else if b == 0x5d {
            if nested {
                return Ok((items, i));
            } else {
                return Err(ParseError { position: i });
            }
        } else {
            if b == 0x2b || b == 0x2d || b == 0x3e || b == 0x3c || b == 0x2e || b == 0x2c {
                let e = if b == 0x2b {
                    Expr::Add(1, 0)
                } else if b == 0x2d {
                    Expr::Add(-1, 0)
                } else if b == 0x3e {
                    Expr::Move(1)
                } else if b == 0x3c {
                    Expr::Move(-1)
                } else if b == 0x2e {
                    Expr::Out(0)
                } else {
                    Expr::In(0)
                };
                proof {
                    lemma_nodes_of_push(items@, e);
                    lemma_written_push(before, node_of(e));
                    assert(written_one(node_of(e)) =~= seq![b]);
                    assert(written(nodes_of(items@.push(e)), (items@.len() + 1) as nat)
                        =~= commands(text.subrange(start as int, i + 1)));
                    assert(all_plain(nodes_of(items@.push(e)))) by {
                        assert forall|k: int| 0 <= k < nodes_of(items@.push(e)).len() implies plain(
                            #[trigger] nodes_of(items@.push(e))[k],
                        ) by {
                            if k < before.len() {
                                assert(before[k] == nodes_of(items@.push(e))[k]);
                            }
                        }
                    }
                }
                items.push(e);
            }
            proof {
                assert forall|j: int| 0 <= j <= i + 1 && j <= text.len() implies depth(
                    #[trigger] text.take(j),
                ) >= 0 by {}
            }
            i += 1;
        }
    }
    proof {
        assert(text.take(n as int) =~= text);
    }
    if nested {
        Err(ParseError { position: n })
    } else {
        Ok((items, n))
    }
}

/// Parses a source text given as bytes. See [`program`].
pub fn parse_bytes(src: &[u8]) -> (result: Result<Vec<Expr>, ParseError>)
    ensures
        result is Ok <==> balanced(src@),
        result matches Ok(prog) ==> all_plain(nodes_of(prog@)) && written(
            nodes_of(prog@),
            prog@.len(),
        ) == commands(src@),
        result matches Err(e) ==> offends(src@, e.position as int),
{
    proof {
        assert(src@.take(0) =~= Seq::<u8>::empty());
        assert(src@.take(src@.len() as int) =~= src@);
        assert(src@.subrange(0, src@.len() as int) =~= src@);
    }
    match parse_items(src, 0, false) {
        Ok((items, _)) => Ok(items),
        Err(e) => {
            proof {
                if e.position < src@.len() {
                    assert(depth(src@.take(e.position + 1)) < 0);
                }
            }
            Err(e)
        },
    }
}

/// Parses a source text into intermediate representation. `+` and `-` become
/// `Add(1, 0)` and `Add(-1, 0)`, `>` and `<` become `Move(1)` and `Move(-1)`,
/// `.` becomes `Out(0)`, `,` becomes `In(0)`, and what stands between `[` and
/// its `]` becomes the body of a `Loop`. Every other byte is a comment. The
/// text is a program exactly if its brackets match.
pub fn program(source: &str) -> (result: Result<Vec<Expr>, ParseError>)
    ensures
        result is Ok <==> balanced(source.spec_bytes()),
        result matches Ok(prog) ==> all_plain(nodes_of(prog@)) && written(
            nodes_of(prog@),
            prog@.len(),
        ) == commands(source.spec_bytes()),
        result matches Err(e) ==> offends(source.spec_bytes(), e.position as int),
{
    parse_bytes(source.as_bytes())
}

/// The text of a whole program.
pub open spec fn text_of(prog: Seq<Node>) -> Seq<u8> {
    written(prog, prog.len())
}

/// The text of a program starts with the text of its first node.
pub proof fn lemma_written_first(prog: Seq<Node>, n: nat)
    requires
        1 <= n <= prog.len(),
    ensures
        written(prog, n) == written_one(prog[0]) + written(prog.drop_first(), (n - 1) as nat),
    decreases n,
{
    let tail = prog.drop_first();
    if n == 1 {
        assert(written(prog, 0) =~= Seq::<u8>::empty());
        assert(written(prog, 1) =~= written_one(prog[0]));
        assert(written_one(prog[0]) + written(tail, 0) =~= written_one(prog[0]));
    } else {
        lemma_written_first(prog, (n - 1) as nat);
        assert(tail[n - 2] == prog[n - 1]);
        assert(written(prog, n) =~= written_one(prog[0]) + written(tail, (n - 1) as nat));
    }
}

/// The depth of two texts in a row is the sum of their depths.
pub proof fn lemma_depth_concat(a: Seq<u8>, b: Seq<u8>)
    ensures
        depth(a + b) == depth(a) + depth(b),
    decreases b.len(),
{
    if b.len() == 0 {
        assert(a + b =~= a);
    } else {
        assert((a + b).drop_last() =~= a + b.drop_last());
        lemma_depth_concat(a, b.drop_last());
    }
}

/// Where no `]` of `a` and none of `b` closes what is not open, and `a` leaves
/// nothing closed that was not open, none of `a + b` does.
pub proof fn lemma_concat_closes_nothing_early(a: Seq<u8>, b: Seq<u8>)
    requires
        closes_nothing_early(a, a.len() as int),
        closes_nothing_early(b, b.len() as int),
        depth(a) >= 0,
    ensures
        closes_nothing_early(a + b, (a + b).len() as int),
{
    assert forall|j: int| 0 <= j <= (a + b).len() implies depth(#[trigger] (a + b).take(j))
        >= 0 by {
        if j <= a.len() {
            assert((a + b).take(j) =~= a.take(j));
        } else {
            assert((a + b).take(j) =~= a + b.take(j - a.len()));
            lemma_depth_concat(a, b.take(j - a.len()));
        }
    }
}

/// The depth of a text of one byte.
pub proof fn lemma_depth_single(b: u8)
    ensures
        depth(seq![b]) == if b == 0x5b {
            1int
        } else if b == 0x5d {
            -1int
        } else {
            0int
        },
{
    assert(seq![b].drop_last() =~= Seq::<u8>::empty());
    assert(depth(seq![b].drop_last()) == 0);
}

/// The text of a plain node is not empty.
pub proof fn lemma_written_one_not_empty(e: Node)
    requires
        plain(e),
    ensures
        written_one(e).len() >= 1,
{
}

/// The brackets of the text of a plain node match, and so do those of the
/// text of a plain program: every program that the parser can make has a text
/// that the parser takes.
pub proof fn lemma_plain_one_balanced(e: Node)
    requires
        plain(e),
    ensures
        balanced(written_one(e)),
    decreases e, 0nat,
{
    let text = written_one(e);
    match e {
        Node::Loop(body) => {
            let inner = text_of(body);
            assert(all_plain(body));
            lemma_plain_balanced(body, body.len());
            let open = seq![0x5bu8];
            let close = seq![0x5du8];
            assert(text =~= (open + inner) + close);
            lemma_depth_single(0x5b);
            lemma_depth_single(0x5d);
            lemma_depth_concat(open, inner);
            lemma_depth_concat(open + inner, close);
            assert forall|j: int| 0 <= j <= text.len() implies depth(#[trigger] text.take(j))
                >= 0 by {
                if j == 0 {
                    assert(text.take(0) =~= Seq::<u8>::empty());
                } else if j <= inner.len() + 1 {
                    assert(text.take(j) =~= open + inner.take(j - 1));
                    lemma_depth_concat(open, inner.take(j - 1));
                } else {
                    assert(text.take(j) =~= text);
                }
            }
        },
        _ => {
            assert(text.len() == 1);
            assert(text =~= seq![text[0]]);
            lemma_depth_single(text[0]);
            assert forall|j: int| 0 <= j <= text.len() implies depth(#[trigger] text.take(j))
                >= 0 by {
                if j == 0 {
                    assert(text.take(0) =~= Seq::<u8>::empty());
                } else {
                    assert(text.take(j) =~= text);
                }
            }
        },
    }
}

/// The brackets of the text of the first `n` nodes of a plain program match.
pub proof fn lemma_plain_balanced(prog: Seq<Node>, n: nat)
    requires
        all_plain(prog),
        n <= prog.len(),
    ensures
        balanced(written(prog, n)),
    decreases prog, n,
{
    if n == 0 {
        assert(written(prog, 0).take(0) =~= Seq::<u8>::empty());
        assert forall|j: int| 0 <= j <= 0 implies depth(#[trigger] written(prog, 0).take(j))
            >= 0 by {
            assert(written(prog, 0).take(j) =~= Seq::<u8>::empty());
        }
    } else {
        let before = written(prog, (n - 1) as nat);
        let last = written_one(prog[n - 1]);
        lemma_plain_balanced(prog, (n - 1) as nat);
        lemma_plain_one_balanced(prog[n - 1]);
        lemma_depth_concat(before, last);
        lemma_concat_closes_nothing_early(before, last);
    }
}

/// No two plain programs have the same text: what the parser hands back for a
/// text is the one program of that text.
pub proof fn lemma_text_names_one_program(p: Seq<Node>, q: Seq<Node>)
    requires
        all_plain(p),
        all_plain(q),
        text_of(p) == text_of(q),
    ensures
        p == q,
    decreases text_of(p).len(),
{
    let text = text_of(p);
    if p.len() == 0 || q.len() == 0 {
        if p.len() > 0 {
            lemma_written_first(p, p.len());
            lemma_written_one_not_empty(p[0]);
        }
        if q.len() > 0 {
            lemma_written_first(q, q.len());
            lemma_written_one_not_empty(q[0]);
        }
        assert(p =~= q);
    } else {
        let (a, b) = (p[0], q[0]);
        let (ta, tb) = (written_one(a), written_one(b));
        let (pr, qr) = (p.drop_first(), q.drop_first());
        lemma_written_first(p, p.len());
        lemma_written_first(q, q.len());
        lemma_written_one_not_empty(a);
        lemma_written_one_not_empty(b);
        assert(text == ta + text_of(pr));
        assert(text == tb + text_of(qr));
        assert(text[0] == ta[0] && text[0] == tb[0]);
        assert(all_plain(pr) && all_plain(qr)) by {
            assert forall|i: int| 0 <= i < pr.len() implies plain(#[trigger] pr[i]) by {
                assert(pr[i] == p[i + 1]);
            }
            assert forall|i: int| 0 <= i < qr.len() implies plain(#[trigger] qr[i]) by {
                assert(qr[i] == q[i + 1]);
            }
        }
        if text[0] == 0x5b {
            let (ba, bb) = (a->Loop_0, b->Loop_0);
            let (wa, wb) = (text_of(ba), text_of(bb));
            assert(a is Loop && b is Loop);
            assert(all_plain(ba) && all_plain(bb));
            lemma_plain_one_balanced(a);
            lemma_plain_one_balanced(b);
            lemma_plain_balanced(ba, ba.len());
            lemma_plain_balanced(bb, bb.len());
            let open = seq![0x5bu8];
            lemma_depth_single(0x5b);
            if wa.len() < wb.len() {
                // the text of `a` ends where the loop of `b` is still open
                assert(text.take(ta.len() as int) =~= ta);
                assert(text.take(ta.len() as int) =~= open + wb.take(wa.len() as int + 1));
                lemma_depth_concat(open, wb.take(wa.len() as int + 1));
            } else if wb.len() < wa.len() {
                assert(text.take(tb.len() as int) =~= tb);
                assert(text.take(tb.len() as int) =~= open + wa.take(wb.len() as int + 1));
                lemma_depth_concat(open, wa.take(wb.len() as int + 1));
            }
            assert(wa =~= text.subrange(1, 1 + wa.len() as int));
            assert(wb =~= text.subrange(1, 1 + wb.len() as int));
            lemma_text_names_one_program(ba, bb);
            assert(a == b);
        } else {
            assert(ta.len() == 1 && tb.len() == 1);
            assert(a == b);
        }
        assert(text_of(pr) =~= text.subrange(ta.len() as int, text.len() as int));
        assert(text_of(qr) =~= text.subrange(tb.len() as int, text.len() as int));
        lemma_text_names_one_program(pr, qr);
        assert forall|i: int| 0 <= i < p.len() implies p[i] == q[i] by {
            if i > 0 {
                assert(p[i] == pr[i - 1] && q[i] == qr[i - 1]);
            }
        }
        assert(p.len() == pr.len() + 1 && q.len() == qr.len() + 1);
        assert(p =~= q);
    }
}

} // verus!

//! The serializer's machinery: recorded instances, the lexicographic
//! order on their encoded ancestry vectors and the sorting step, the
//! rendered text of each adjacent pair of sorted instances ("sorted-diff
//! emission"), and the registry's transition functions with the laws
//! they obey.

use vstd::prelude::*;
use crate::tables::{AttrTable, attr_table_get, attr_table_view};
use crate::text::{escape_seq, indent_seq, push_escaped_all, push_indent, push_str_chars};
use vstd::seq_lib::group_to_multiset_ensures;
use vstd::multiset::Multiset;

verus! {

/// One recorded instance: the interleaved (element id, instance key)
/// ancestry vector, and the value text.
pub struct Instance {
    pub position: Vec<usize>,
    pub value: Vec<char>,
}

/// Lexicographic order on encoded ancestry vectors, shorter-prefix-first.
pub open spec fn lex_le(a: Seq<usize>, b: Seq<usize>) -> bool
    decreases a.len(),
{
    if a.len() == 0 {
        true
    } else if b.len() == 0 {
        false
    } else if a[0] < b[0] {
        true
    } else if a[0] > b[0] {
        false
    } else {
        lex_le(a.drop_first(), b.drop_first())
    }
}

pub proof fn lemma_lex_total(a: Seq<usize>, b: Seq<usize>)
    ensures
        lex_le(a, b) || lex_le(b, a),
    decreases a.len(),
{
    if a.len() > 0 && b.len() > 0 && a[0] == b[0] {
        lemma_lex_total(a.drop_first(), b.drop_first());
    }
}

pub proof fn lemma_lex_trans(a: Seq<usize>, b: Seq<usize>, c: Seq<usize>)
    requires
        lex_le(a, b),
        lex_le(b, c),
    ensures
        lex_le(a, c),
    decreases a.len(),
{
    if a.len() > 0 && b.len() > 0 && c.len() > 0 && a[0] == b[0] && b[0] == c[0] {
        lemma_lex_trans(a.drop_first(), b.drop_first(), c.drop_first());
    }
}

/// Whether `a` comes no later than `b` in the sorted order.
pub fn lex_le_exec(a: &Vec<usize>, b: &Vec<usize>) -> (r: bool)
    ensures
        r == lex_le(a@, b@),
{
    let mut i: usize = 0;
    proof {
        assert(a@.skip(0) =~= a@);
        assert(b@.skip(0) =~= b@);
    }
    while i < a.len() && i < b.len()
        invariant
            i <= a@.len(),
            i <= b@.len(),
            lex_le(a@, b@) == lex_le(a@.skip(i as int), b@.skip(i as int)),
            lex_le(b@, a@) == lex_le(b@.skip(i as int), a@.skip(i as int)),
        decreases a@.len() - i,
    {
        if a[i] < b[i] {
            proof {
                assert(lex_le(a@.skip(i as int), b@.skip(i as int)));
            }
            return true;
        }
        if a[i] > b[i] {
            proof {
                assert(!lex_le(a@.skip(i as int), b@.skip(i as int)));
            }
            return false;
        }
        proof {
            assert(a@.skip(i as int).drop_first() =~= a@.skip(i as int + 1));
            assert(b@.skip(i as int).drop_first() =~= b@.skip(i as int + 1));
        }
        i = i + 1;
    }
    if a.len() <= b.len() {
        proof {
            assert(a@.skip(i as int).len() == 0);
        }
        true
    } else {
        proof {
            assert(b@.skip(i as int).len() == 0 && a@.skip(i as int).len() > 0);
        }
        false
    }
}

/// Whether the instances stand in sorted order of their ancestry vectors.
pub open spec fn sorted_positions(s: Seq<Instance>) -> bool {
    forall|i: int, j: int|
        0 <= i < j < s.len() ==> lex_le(#[trigger] s[i].position@, #[trigger] s[j].position@)
}

/// Sorts the instances by their encoded ancestry vectors; the result is a
/// permutation of the input.
pub fn sort_instances(v: &mut Vec<Instance>)
    ensures
        sorted_positions(final(v)@),
        final(v)@.to_multiset() == old(v)@.to_multiset(),
        final(v)@.len() == old(v)@.len(),
{
    broadcast use group_to_multiset_ensures;

    let mut src: Vec<Instance> = Vec::new();
    core::mem::swap(&mut src, v);
    proof {
        assert(v@.to_multiset().add(src@.to_multiset()) =~= old(v)@.to_multiset());
    }
    while src.len() > 0
        invariant
            v@.to_multiset().add(src@.to_multiset()) == old(v)@.to_multiset(),
            sorted_positions(v@),
            forall|x: int, y: int|
                0 <= x < v@.len() && 0 <= y < src@.len() ==> lex_le(
                    #[trigger] v@[x].position@,
                    #[trigger] src@[y].position@,
                ),
        decreases src@.len(),
    {
        let mut m: usize = 0;
        let mut k: usize = 1;
        proof {
            lemma_lex_total(src@[0].position@, src@[0].position@);
        }
        while k < src.len()
            invariant
                m < k <= src@.len(),
                src@.len() > 0,
                forall|t: int| 0 <= t < k ==> lex_le(src@[m as int].position@, #[trigger] src@[t].position@),
            decreases src@.len() - k,
        {
            if lex_le_exec(&src[k].position, &src[m].position) {
                proof {
                    assert forall|t: int| 0 <= t < k + 1 implies lex_le(
                        src@[k as int].position@,
                        #[trigger] src@[t].position@,
                    ) by {
                        if t < k {
                            lemma_lex_trans(
                                src@[k as int].position@,
                                src@[m as int].position@,
                                src@[t].position@,
                            );
                        } else {
                            lemma_lex_total(src@[k as int].position@, src@[k as int].position@);
                        }
                    }
                }
                m = k;
            } else {
                proof {
                    lemma_lex_total(src@[k as int].position@, src@[m as int].position@);
                }
            }
            k = k + 1;
        }
        let ghost old_v = v@;
        let ghost old_src = src@;
        let x = src.remove(m);
        v.push(x);
        proof {
            assert(old_src.contains(old_src[m as int]));
            old_src.to_multiset_ensures();
            old_v.to_multiset_ensures();
            assert(src@ == old_src.remove(m as int));
            assert(old_src.remove(m as int).to_multiset() =~= old_src.to_multiset().remove(
                old_src[m as int],
            ));
            assert(v@ == old_v.push(old_src[m as int]));
            assert(old_v.push(old_src[m as int]).to_multiset() =~= old_v.to_multiset().insert(
                old_src[m as int],
            ));
            assert(v@.to_multiset().add(src@.to_multiset()) =~= old_v.to_multiset().add(
                old_src.to_multiset(),
            ));
            assert forall|x2: int, y: int|
                0 <= x2 < v@.len() && 0 <= y < src@.len() implies lex_le(
                #[trigger] v@[x2].position@,
                #[trigger] src@[y].position@,
            ) by {
                let z = if y < m { old_src[y] } else { old_src[y + 1] };
                assert(src@[y] == z);
                if x2 < v@.len() - 1 {
                    assert(v@[x2] == old_v[x2]);
                } else {
                    assert(v@[x2] == old_src[m as int]);
                }
            }
            assert forall|i: int, j: int| 0 <= i < j < v@.len() implies lex_le(
                #[trigger] v@[i].position@,
                #[trigger] v@[j].position@,
            ) by {
                if j < v@.len() - 1 {
                    assert(v@[i] == old_v[i] && v@[j] == old_v[j]);
                } else {
                    assert(v@[i] == old_v[i] && v@[j] == old_src[m as int]);
                }
            }
        }
    }
    proof {
        src@.to_multiset_ensures();
        v@.to_multiset_ensures();
        old(v)@.to_multiset_ensures();
        assert(src@.to_multiset() =~= Multiset::<Instance>::empty());
        assert(v@.to_multiset().add(src@.to_multiset()) =~= v@.to_multiset());
        assert(v@.len() == v@.to_multiset().len());
        assert(old(v)@.len() == old(v)@.to_multiset().len());
    }
}

/// The (id, key) pair of an encoded vector at pair depth `i`; each
/// component is absent where the vector ends.
pub open spec fn opt_pair(s: Seq<usize>, i: int) -> (Option<usize>, Option<usize>) {
    (
        (if 2 * i < s.len() {
            Some(s[2 * i])
        } else {
            None
        }),
        (if 2 * i + 1 < s.len() {
            Some(s[2 * i + 1])
        } else {
            None
        }),
    )
}

/// The attribute string stored for an instance, or nothing.
pub open spec fn attr_of(attrs: Map<(usize, usize), Seq<char>>, id: usize, key: usize) -> Seq<
    char,
> {
    if attrs.contains_key((id, key)) {
        attrs[(id, key)]
    } else {
        Seq::empty()
    }
}

/// The closing-tag text at pair depth `i` of the step from `prev` to
/// `cur`: emitted when the pair changed and `prev` has a pair there. The
/// deepest level of `prev` closes an open value line, so it carries no
/// indentation.
pub open spec fn close_at(prev: Seq<usize>, cur: Seq<usize>, names: Seq<Seq<char>>, i: int) -> Seq<
    char,
> {
    let l = opt_pair(prev, i);
    let c = opt_pair(cur, i);
    if l != c && l.0 is Some {
        let ind = if i == prev.len() / 2 - 1 {
            Seq::<char>::empty()
        } else {
            indent_seq(i)
        };
        ind + seq!['<', '/'] + names[l.0->Some_0 as int] + seq!['>', '\n']
    } else {
        Seq::empty()
    }
}

/// The closing text for the pair depths in `[lo, hi)`, deepest first.
pub open spec fn close_between(
    prev: Seq<usize>,
    cur: Seq<usize>,
    names: Seq<Seq<char>>,
    lo: int,
    hi: int,
) -> Seq<char>
    decreases hi - lo,
{
    if hi <= lo {
        Seq::empty()
    } else {
        close_at(prev, cur, names, hi - 1) + close_between(prev, cur, names, lo, hi - 1)
    }
}

/// The (id, key, depth) triples that need opening at the pair depths in
/// `[lo, hi)`: the pair changed and `cur` has a pair there. Deepest first,
/// as the scan collects them.
pub open spec fn opens_between(prev: Seq<usize>, cur: Seq<usize>, lo: int, hi: int) -> Seq<
    (usize, usize, usize),
>
    decreases hi - lo,
{
    if hi <= lo {
        Seq::empty()
    } else {
        let l = opt_pair(prev, hi - 1);
        let c = opt_pair(cur, hi - 1);
        (if l != c && c.0 is Some {
            seq![(c.0->Some_0, c.1->Some_0, (hi - 1) as usize)]
        } else {
            Seq::empty()
        }) + opens_between(prev, cur, lo, hi - 1)
    }
}

/// One opening line: indentation, the element name, the attribute string
/// stored for the instance, the closing bracket, and a line break.
pub open spec fn open_line(
    op: (usize, usize, usize),
    names: Seq<Seq<char>>,
    attrs: Map<(usize, usize), Seq<char>>,
) -> Seq<char> {
    indent_seq(op.2 as int) + seq!['<'] + names[op.0 as int] + attr_of(attrs, op.0, op.1) + seq![
        '>',
        '\n',
    ]
}

/// The opening lines for the collected triples at index `j` and above,
/// emitted from the last collected (shallowest) down to index `j`.
pub open spec fn opens_from(
    ops: Seq<(usize, usize, usize)>,
    names: Seq<Seq<char>>,
    attrs: Map<(usize, usize), Seq<char>>,
    j: int,
) -> Seq<char>
    decreases ops.len() - j,
{
    if j < 0 || j >= ops.len() {
        Seq::empty()
    } else {
        opens_from(ops, names, attrs, j + 1) + open_line(ops[j], names, attrs)
    }
}

/// The text a stored value renders as: the single space that stands in
/// for an empty value renders as empty content; any other value is
/// escaped character by character.
pub open spec fn rendered_value(v: Seq<char>) -> Seq<char> {
    if v == seq![' '] {
        Seq::empty()
    } else {
        escape_seq(v)
    }
}

/// The value line: the deepest newly opened tag, with the rendered value
/// text directly after it and no line break; the tag is closed by a later
/// step. Nothing is emitted when the instance carries no value or the
/// step opens no tag.
pub open spec fn value_line(
    ops: Seq<(usize, usize, usize)>,
    names: Seq<Seq<char>>,
    attrs: Map<(usize, usize), Seq<char>>,
    value: Seq<char>,
) -> Seq<char> {
    if value.len() > 0 && ops.len() > 0 {
        let op = ops[0];
        indent_seq(op.2 as int) + seq!['<'] + names[op.0 as int] + attr_of(attrs, op.0, op.1)
            + seq!['>'] + rendered_value(value)
    } else {
        Seq::empty()
    }
}

/// The text emitted for one adjacent pair of sorted instances: closings
/// deepest first, then openings shallowest first down to the element
/// itself, then the value line.
pub open spec fn render_step(
    prev: Instance,
    cur: Instance,
    names: Seq<Seq<char>>,
    attrs: Map<(usize, usize), Seq<char>>,
) -> Seq<char> {
    let plen = prev.position@.len() as int;
    let clen = cur.position@.len() as int;
    let npairs = (if plen > clen {
        plen
    } else {
        clen
    }) / 2;
    let ops = opens_between(prev.position@, cur.position@, 0, npairs);
    close_between(prev.position@, cur.position@, names, 0, npairs) + opens_from(
        ops,
        names,
        attrs,
        1,
    ) + value_line(ops, names, attrs, cur.value@)
}

/// The whole serialization of the sorted instance list: the steps for the
/// adjacent pairs from index `n` on.
pub open spec fn render_pairs(
    elems: Seq<Instance>,
    names: Seq<Seq<char>>,
    attrs: Map<(usize, usize), Seq<char>>,
    n: int,
) -> Seq<char>
    decreases elems.len() - n,
{
    if n < 1 || n >= elems.len() {
        Seq::empty()
    } else {
        render_step(elems[n - 1], elems[n], names, attrs) + render_pairs(elems, names, attrs, n + 1)
    }
}

/// Whether an instance's encoded vector is well formed against a table of
/// `nelem` elements: even length, ids in range at even offsets.
pub open spec fn instance_wf(r: Instance, nelem: int) -> bool {
    &&& r.position@.len() % 2 == 0
    &&& forall|k: int|
        0 <= k < r.position@.len() && k % 2 == 0 ==> #[trigger] r.position@[k] < nelem
}

/// Emits the text of one adjacent pair of sorted instances.
#[verifier::rlimit(100)]
pub fn emit_step(
    out: &mut Vec<char>,
    prev: &Instance,
    cur: &Instance,
    names: &Vec<String>,
    attrs: &AttrTable,
)
    requires
        instance_wf(*prev, names@.len() as int),
        instance_wf(*cur, names@.len() as int),
    ensures
        final(out)@ == old(out)@ + render_step(
            *prev,
            *cur,
            names@.map_values(|s: String| s@),
            attr_table_view(*attrs),
        ),
{
    let ghost nv = names@.map_values(|s: String| s@);
    let ghost av = attr_table_view(*attrs);
    let ghost p = prev.position@;
    let ghost c = cur.position@;
    let plen = prev.position.len();
    let clen = cur.position.len();
    let len = if plen > clen {
        plen
    } else {
        clen
    };
    let npairs = len / 2;
    let mut opening: Vec<(usize, usize, usize)> = Vec::new();
    let mut i = npairs;
    proof {
        assert(out@ =~= old(out)@ + close_between(p, c, nv, npairs as int, npairs as int));
        assert(opening@ =~= opens_between(p, c, npairs as int, npairs as int));
    }
    while i > 0
        invariant
            i <= npairs,
            plen == p.len() && clen == c.len(),
            p.len() % 2 == 0 && c.len() % 2 == 0,
            npairs as int == (if plen > clen { plen as int } else { clen as int }) / 2,
            nv == names@.map_values(|s: String| s@),
            av == attr_table_view(*attrs),
            instance_wf(*prev, nv.len() as int),
            instance_wf(*cur, nv.len() as int),
            p == prev.position@ && c == cur.position@,
            out@ == old(out)@ + close_between(p, c, nv, i as int, npairs as int),
            opening@ == opens_between(p, c, i as int, npairs as int),
        decreases i,
    {
        i = i - 1;
        let i2 = 2 * i;
        let ghost l = opt_pair(p, i as int);
        let ghost cc = opt_pair(c, i as int);
        let l_has = i2 < plen;
        let c_has = i2 < clen;
        proof {
            if i2 < plen {
                assert(i2 + 1 < plen);
            }
            if i2 < clen {
                assert(i2 + 1 < clen);
            }
        }
        let differ: bool = if l_has && c_has {
            !(prev.position[i2] == cur.position[i2] && prev.position[i2 + 1] == cur.position[i2
                + 1])
        } else {
            l_has || c_has
        };
        proof {
            assert(differ == (l != cc));
        }
        let ghost out_before = out@;
        if differ && l_has {
            let id = prev.position[i2];
            if !(i == plen / 2 - 1) {
                push_indent(out, i);
            }
            out.push('<');
            out.push('/');
            push_str_chars(out, names[id].as_str());
            out.push('>');
            out.push('\n');
            proof {
                assert(nv[id as int] == names@[id as int]@);
                assert(out@ =~= out_before + close_at(p, c, nv, i as int));
            }
        } else {
            proof {
                assert(close_at(p, c, nv, i as int) =~= Seq::<char>::empty());
                assert(out@ =~= out_before + close_at(p, c, nv, i as int));
            }
        }
        let ghost opening_before = opening@;
        if differ && c_has {
            let cid = cur.position[i2];
            let ckey = cur.position[i2 + 1];
            opening.push((cid, ckey, i));
        }
        proof {
            assert(close_between(p, c, nv, i as int, npairs as int) =~= close_between(
                p,
                c,
                nv,
                i as int + 1,
                npairs as int,
            ) + close_at(p, c, nv, i as int)) by {
                lemma_close_between_split(p, c, nv, i as int, npairs as int);
            }
            assert(out@ =~= old(out)@ + close_between(p, c, nv, i as int, npairs as int));
            assert(opens_between(p, c, i as int, npairs as int) =~= opens_between(
                p,
                c,
                i as int + 1,
                npairs as int,
            ) + (if l != cc && cc.0 is Some {
                seq![(cc.0->Some_0, cc.1->Some_0, i as usize)]
            } else {
                Seq::empty()
            })) by {
                lemma_opens_between_split(p, c, i as int, npairs as int);
            }
            assert(opening@ =~= opens_between(p, c, i as int, npairs as int));
        }
    }
    let ghost ops = opens_between(p, c, 0, npairs as int);
    proof {
        assert(opening@ == ops);
        lemma_opens_between_range(p, c, 0, npairs as int);
        assert forall|t: int| 0 <= t < ops.len() implies (#[trigger] ops[t]).0 < nv.len() by {
            let d = choose|d: int| 0 <= 2 * d < c.len() && ops[t].0 == #[trigger] c[2 * d];
            assert(0 <= 2 * d < c.len() && (2 * d) % 2 == 0);
            assert(c[2 * d] < nv.len());
        }
    }
    let mut j = opening.len();
    proof {
        assert(out@ =~= old(out)@ + close_between(p, c, nv, 0, npairs as int) + opens_from(
            ops,
            nv,
            av,
            j as int,
        ));
    }
    while j > 1
        invariant
            j <= opening@.len(),
            j >= 1 || opening@.len() == 0,
            opening@ == ops,
            nv == names@.map_values(|s: String| s@),
            av == attr_table_view(*attrs),
            forall|t: int| 0 <= t < ops.len() ==> (#[trigger] ops[t]).0 < nv.len(),
            out@ == old(out)@ + close_between(p, c, nv, 0, npairs as int) + opens_from(
                ops,
                nv,
                av,
                j as int,
            ),
        decreases j,
    {
        j = j - 1;
        let op = opening[j];
        let ghost out_before = out@;
        push_indent(out, op.2);
        out.push('<');
        push_str_chars(out, names[op.0].as_str());
        match attr_table_get(attrs, op.0, op.1) {
            Some(a) => {
                push_str_chars(out, a.as_str());
            },
            None => {},
        }
        out.push('>');
        out.push('\n');
        proof {
            assert(nv[op.0 as int] == names@[op.0 as int]@);
            assert(out@ =~= out_before + open_line(ops[j as int], nv, av));
            assert(out@ =~= old(out)@ + close_between(p, c, nv, 0, npairs as int) + opens_from(
                ops,
                nv,
                av,
                j as int,
            ));
        }
    }
    let ghost out_mid = out@;
    if cur.value.len() > 0 && opening.len() > 0 {
        let op = opening[0];
        push_indent(out, op.2);
        out.push('<');
        push_str_chars(out, names[op.0].as_str());
        match attr_table_get(attrs, op.0, op.1) {
            Some(a) => {
                push_str_chars(out, a.as_str());
            },
            None => {},
        }
        out.push('>');
        if !(cur.value.len() == 1 && cur.value[0] == ' ') {
            push_escaped_all(out, &cur.value);
        } else {
            proof {
                assert(cur.value@ =~= seq![' ']);
            }
        }
        proof {
            assert(nv[op.0 as int] == names@[op.0 as int]@);
            assert(out@ =~= out_mid + value_line(ops, nv, av, cur.value@));
        }
    } else {
        proof {
            assert(value_line(ops, nv, av, cur.value@) =~= Seq::<char>::empty());
            assert(out@ =~= out_mid + value_line(ops, nv, av, cur.value@));
        }
    }
    proof {
        if opening@.len() == 0 {
            assert(opens_from(ops, nv, av, 0) =~= Seq::<char>::empty());
            assert(opens_from(ops, nv, av, 1) =~= Seq::<char>::empty());
        }
        assert(out_mid =~= old(out)@ + close_between(p, c, nv, 0, npairs as int) + opens_from(
            ops,
            nv,
            av,
            1,
        ));
        assert(out@ =~= out_mid + value_line(ops, nv, av, cur.value@));
        assert(render_step(*prev, *cur, nv, av) =~= close_between(p, c, nv, 0, npairs as int)
            + opens_from(ops, nv, av, 1) + value_line(ops, nv, av, cur.value@));
        assert(out@ =~= old(out)@ + render_step(*prev, *cur, nv, av));
    }
}

proof fn lemma_close_between_split(
    p: Seq<usize>,
    c: Seq<usize>,
    nv: Seq<Seq<char>>,
    lo: int,
    hi: int,
)
    requires
        lo < hi,
    ensures
        close_between(p, c, nv, lo, hi) =~= close_between(p, c, nv, lo + 1, hi) + close_at(
            p,
            c,
            nv,
            lo,
        ),
    decreases hi - lo,
{
    if lo + 1 == hi {
        assert(close_between(p, c, nv, lo, lo) =~= Seq::<char>::empty());
        assert(close_between(p, c, nv, lo, hi) =~= close_at(p, c, nv, lo) + close_between(
            p,
            c,
            nv,
            lo,
            lo,
        ));
        assert(close_at(p, c, nv, lo) + Seq::<char>::empty() =~= Seq::<char>::empty() + close_at(
            p,
            c,
            nv,
            lo,
        ));
        assert(close_between(p, c, nv, lo + 1, hi) =~= Seq::<char>::empty());
    } else {
        lemma_close_between_split(p, c, nv, lo, hi - 1);
    }
}

proof fn lemma_opens_between_split(p: Seq<usize>, c: Seq<usize>, lo: int, hi: int)
    requires
        lo < hi,
    ensures
        opens_between(p, c, lo, hi) =~= opens_between(p, c, lo + 1, hi) + ({
            let l = opt_pair(p, lo);
            let cc = opt_pair(c, lo);
            if l != cc && cc.0 is Some {
                seq![(cc.0->Some_0, cc.1->Some_0, lo as usize)]
            } else {
                Seq::empty()
            }
        }),
    decreases hi - lo,
{
    if lo + 1 == hi {
        assert(opens_between(p, c, lo, lo) =~= Seq::<(usize, usize, usize)>::empty());
        assert(opens_between(p, c, lo + 1, hi) =~= Seq::<(usize, usize, usize)>::empty());
    } else {
        lemma_opens_between_split(p, c, lo, hi - 1);
    }
}

/// Every collected triple's element id is a pair head of `cur`, hence in
/// range for a well-formed instance.
proof fn lemma_opens_between_range(p: Seq<usize>, c: Seq<usize>, lo: int, hi: int)
    requires
        0 <= lo,
    ensures
        forall|t: int|
            0 <= t < opens_between(p, c, lo, hi).len() ==> exists|d: int|
                0 <= 2 * d < c.len() && (#[trigger] opens_between(p, c, lo, hi)[t]).0
                    == #[trigger] c[2 * d],
    decreases hi - lo,
{
    if hi <= lo {
    } else {
        lemma_opens_between_range(p, c, lo, hi - 1);
        let l = opt_pair(p, hi - 1);
        let cc = opt_pair(c, hi - 1);
        let head: Seq<(usize, usize, usize)> = if l != cc && cc.0 is Some {
            seq![(cc.0->Some_0, cc.1->Some_0, (hi - 1) as usize)]
        } else {
            Seq::empty()
        };
        let rest = opens_between(p, c, lo, hi - 1);
        assert forall|t: int| 0 <= t < opens_between(p, c, lo, hi).len() implies exists|d: int|
            0 <= 2 * d < c.len() && (#[trigger] opens_between(p, c, lo, hi)[t]).0 == #[trigger] c[2
            * d] by {
            if t < head.len() {
                assert(0 <= 2 * (hi - 1) < c.len() && opens_between(p, c, lo, hi)[t].0 == c[2 * (hi
                    - 1)]);
            } else {
                assert(opens_between(p, c, lo, hi)[t] == rest[t - head.len()]);
            }
        }
    }
}

/// Freshness of the recorded instances while the recorder is live: every
/// encoded vector ends in a key the counter has reached, no two end in
/// the same key, and only the initial instance has an empty ancestry —
/// so the recorded instances are pairwise distinct and their sorted
/// order is unique.
pub open spec fn fresh_keys(elems: Seq<Instance>, kc: usize) -> bool {
    &&& forall|n: int|
        0 <= n < elems.len() && (#[trigger] elems[n]).position@.len() > 0 ==> elems[
            n
        ].position@.last() <= kc
    &&& forall|m: int, n: int|
        0 <= m < n < elems.len() && (#[trigger] elems[m]).position@.len() > 0 && (
        #[trigger] elems[n]).position@.len() > 0 ==> elems[m].position@.last() != elems[
            n
        ].position@.last()
    &&& forall|m: int, n: int|
        0 <= m < n < elems.len() ==> !((#[trigger] elems[m]).position@.len() == 0 && (
        #[trigger] elems[n]).position@.len() == 0)
}

/// Fresh keys make the recorded instances pairwise distinct.
pub proof fn lemma_fresh_keys_no_duplicates(elems: Seq<Instance>, kc: usize)
    requires
        fresh_keys(elems, kc),
    ensures
        elems.no_duplicates(),
{
    assert forall|m: int, n: int|
        0 <= m < elems.len() && 0 <= n < elems.len() && m != n implies elems[m] != elems[n] by {
        let a = if m < n {
            m
        } else {
            n
        };
        let b = if m < n {
            n
        } else {
            m
        };
        if elems[a].position@.len() == 0 && elems[b].position@.len() == 0 {
            assert(false);
        } else if elems[a].position@.len() > 0 && elems[b].position@.len() > 0 {
            assert(elems[a].position@.last() != elems[b].position@.last());
        } else {
            assert(elems[a].position@.len() != elems[b].position@.len());
        }
    }
}

/// The encoded ancestry vector: each path entry interleaved with the key
/// currently active for it.
pub open spec fn encode_position(path: Seq<usize>, keys: Seq<usize>) -> Seq<usize>
    decreases path.len(),
{
    if path.len() == 0 {
        Seq::empty()
    } else {
        seq![path[0], keys[path[0] as int]] + encode_position(path.drop_first(), keys)
    }
}

pub proof fn lemma_encode_push(path: Seq<usize>, keys: Seq<usize>, x: usize)
    ensures
        encode_position(path.push(x), keys) == encode_position(path, keys) + seq![
            x,
            keys[x as int],
        ],
    decreases path.len(),
{
    if path.len() == 0 {
        assert(path.push(x).drop_first() =~= Seq::<usize>::empty());
        assert(path.push(x)[0] == x);
        assert(encode_position(path.push(x), keys) == seq![x, keys[x as int]] + encode_position(
            path.push(x).drop_first(),
            keys,
        ));
        assert(encode_position(path.push(x).drop_first(), keys) == Seq::<usize>::empty());
        assert(encode_position(path, keys) == Seq::<usize>::empty());
        assert(seq![x, keys[x as int]] + Seq::<usize>::empty() =~= Seq::<usize>::empty() + seq![
            x,
            keys[x as int],
        ]);
        assert(encode_position(path.push(x), keys) =~= encode_position(path, keys) + seq![
            x,
            keys[x as int],
        ]);
    } else {
        assert(path.push(x).drop_first() =~= path.drop_first().push(x));
        assert(path.push(x)[0] == path[0]);
        lemma_encode_push(path.drop_first(), keys, x);
        assert(encode_position(path.push(x), keys) == seq![path[0], keys[path[0] as int]] + (
        encode_position(path.drop_first(), keys) + seq![x, keys[x as int]]));
        assert(encode_position(path, keys) == seq![path[0], keys[path[0] as int]]
            + encode_position(path.drop_first(), keys));
        let a = seq![path[0], keys[path[0] as int]];
        let b = encode_position(path.drop_first(), keys);
        let c = seq![x, keys[x as int]];
        assert(a + (b + c) =~= (a + b) + c);
        assert(encode_position(path.push(x), keys) =~= encode_position(path, keys) + seq![
            x,
            keys[x as int],
        ]);
    }
}

pub proof fn lemma_encode_facts(path: Seq<usize>, keys: Seq<usize>)
    ensures
        encode_position(path, keys).len() == 2 * path.len(),
        forall|j: int|
            0 <= j < path.len() ==> encode_position(path, keys)[2 * j] == #[trigger] path[j]
                && encode_position(path, keys)[2 * j + 1] == keys[path[j] as int],
    decreases path.len(),
{
    if path.len() > 0 {
        lemma_encode_facts(path.drop_first(), keys);
        let enc = encode_position(path, keys);
        let rest = encode_position(path.drop_first(), keys);
        assert forall|j: int|
            0 <= j < path.len() implies enc[2 * j] == #[trigger] path[j] && enc[2 * j + 1]
            == keys[path[j] as int] by {
            if j > 0 {
                assert(path.drop_first()[j - 1] == path[j]);
                assert(enc[2 * j] == rest[2 * (j - 1)]);
                assert(enc[2 * j + 1] == rest[2 * (j - 1) + 1]);
            }
        }
    }
}

/// Builds the encoded ancestry vector of a path against the current keys.
pub fn create_position(position: &Vec<usize>, key: &Vec<usize>) -> (r: Vec<usize>)
    requires
        forall|k: int| 0 <= k < position@.len() ==> #[trigger] position@[k] < key@.len(),
    ensures
        r@ == encode_position(position@, key@),
{
    let n = position.len();
    let mut r: Vec<usize> = Vec::new();
    let mut i: usize = 0;
    proof {
        assert(position@.take(0) =~= Seq::<usize>::empty());
    }
    while i < n
        invariant
            i <= n,
            n == position@.len(),
            forall|k: int| 0 <= k < position@.len() ==> #[trigger] position@[k] < key@.len(),
            r@ == encode_position(position@.take(i as int), key@),
        decreases n - i,
    {
        let id = position[i];
        r.push(id);
        r.push(key[id]);
        i = i + 1;
        proof {
            assert(position@.take(i as int) =~= position@.take(i as int - 1).push(
                position@[i as int - 1],
            ));
            lemma_encode_push(position@.take(i as int - 1), key@, position@[i as int - 1]);
            assert(r@ =~= encode_position(position@.take(i as int - 1), key@) + seq![
                position@[i as int - 1],
                key@[position@[i as int - 1] as int],
            ]);
        }
    }
    proof {
        assert(position@.take(n as int) =~= position@);
    }
    r
}

/// The key registry's transition for `set_key` on a known element: the key
/// bound to (element, key text) is reused, or the next fresh key is bound;
/// either way it becomes the element's current key. The result is the new
/// registry, the new current keys, the new counter, and the key handed out.
pub open spec fn set_key_updates(
    keys: Map<(usize, Seq<char>), usize>,
    current: Seq<usize>,
    kc: usize,
    id: usize,
    txt: Seq<char>,
) -> (Map<(usize, Seq<char>), usize>, Seq<usize>, usize, usize) {
    if keys.contains_key((id, txt)) {
        let k = keys[(id, txt)];
        (keys, current.update(id as int, k), kc, k)
    } else {
        let k = (kc + 1) as usize;
        (keys.insert((id, txt), k), current.update(id as int, k), k, k)
    }
}

/// `add_element`'s transition on a known element: a fresh key is always
/// allocated and made current for the element, and the instance's ancestry
/// vector is encoded against the updated current keys. An empty value is
/// stored as a single space. The result is the new current keys, the new
/// counter, the encoded vector, and the stored value.
pub open spec fn add_element_updates(
    path: Seq<usize>,
    current: Seq<usize>,
    kc: usize,
    value: Seq<char>,
) -> (Seq<usize>, usize, Seq<usize>, Seq<char>) {
    let k = (kc + 1) as usize;
    let id = path.last();
    let cur2 = current.update(id as int, k);
    (
        cur2,
        k,
        encode_position(path, cur2),
        if value.len() == 0 {
            seq![' ']
        } else {
            value
        },
    )
}

/// `attributes`' transition: set-once per (element, key) instance; the
/// same string again is accepted and changes nothing, a different one is
/// refused.
pub open spec fn attach_updates(
    attrs: Map<(usize, usize), Seq<char>>,
    id: usize,
    key: usize,
    s: Seq<char>,
) -> (Map<(usize, usize), Seq<char>>, bool) {
    if attrs.contains_key((id, key)) {
        if attrs[(id, key)] == s {
            (attrs, true)
        } else {
            (attrs, false)
        }
    } else {
        (attrs.insert((id, key), s), true)
    }
}

/// The attribute string built from alternating name/value items:
/// ` name="value"` for each pair, values taken verbatim.
pub open spec fn attr_string(items: Seq<Seq<char>>) -> Seq<char>
    decreases items.len(),
{
    if items.len() < 2 {
        Seq::empty()
    } else {
        seq![' '] + items[0] + seq!['=', '"'] + items[1] + seq!['"'] + attr_string(items.skip(2))
    }
}

/// Key reuse groups instances: a second `set_key` with the same element
/// and key text hands out the key of the first and leaves the registry,
/// the current keys and the counter exactly as the first call left them.
/// `XmlBuilder::set_key`'s contract equates each call's effect with
/// `set_key_updates`, so this holds of any two such calls in a session.
pub proof fn lemma_set_key_reuse(
    keys: Map<(usize, Seq<char>), usize>,
    current: Seq<usize>,
    kc: usize,
    id: usize,
    txt: Seq<char>,
)
    requires
        id < current.len(),
    ensures
        ({
            let (k1, c1, n1, r1) = set_key_updates(keys, current, kc, id, txt);
            let (k2, c2, n2, r2) = set_key_updates(k1, c1, n1, id, txt);
            r2 == r1 && k2 == k1 && n2 == n1 && c2 == c1
        }),
{
    let (k1, c1, n1, r1) = set_key_updates(keys, current, kc, id, txt);
    let (k2, c2, n2, r2) = set_key_updates(k1, c1, n1, id, txt);
    assert(k1.contains_key((id, txt)) && k1[(id, txt)] == r1);
    assert(c1[id as int] == r1);
    assert(c2 =~= c1);
}

/// `add_element` never dedupes: two successive `add_element` transitions,
/// whatever their elements and values, record instances whose encoded
/// ancestry vectors differ — each call yields a distinct instance.
/// `XmlBuilder::add_element`'s contract equates each call's effect with
/// `add_element_updates` and always appends exactly one instance; the
/// `fresh_keys` clause of `XmlBuilder::wf` extends the distinctness to
/// every pair of recorded instances in a session.
pub proof fn lemma_add_element_fresh(
    path1: Seq<usize>,
    path2: Seq<usize>,
    current: Seq<usize>,
    kc: usize,
    v1: Seq<char>,
    v2: Seq<char>,
)
    requires
        path1.len() > 0,
        path2.len() > 0,
        path1.last() < current.len(),
        path2.last() < current.len(),
        kc + 2 <= usize::MAX,
    ensures
        ({
            let (c1, n1, pos1, s1) = add_element_updates(path1, current, kc, v1);
            let (c2, n2, pos2, s2) = add_element_updates(path2, c1, n1, v2);
            pos1 != pos2
        }),
{
    let (c1, n1, pos1, s1) = add_element_updates(path1, current, kc, v1);
    let (c2, n2, pos2, s2) = add_element_updates(path2, c1, n1, v2);
    lemma_encode_facts(path1, c1);
    lemma_encode_facts(path2, c2);
    let j1 = path1.len() - 1;
    let j2 = path2.len() - 1;
    assert(pos1[2 * j1 + 1] == c1[path1[j1] as int]);
    assert(pos1[2 * j1 + 1] == kc + 1);
    assert(pos2[2 * j2 + 1] == c2[path2[j2] as int]);
    assert(pos2[2 * j2 + 1] == kc + 2);
    if pos1 == pos2 {
        assert(pos1.len() == pos2.len());
        assert(j1 == j2);
        assert(pos1[2 * j1 + 1] == pos2[2 * j2 + 1]);
        assert(false);
    }
}

/// Attribute idempotence: once a string is attached to an instance,
/// attaching the same string again succeeds and changes nothing, and
/// attaching a different string is refused and changes nothing.
/// `ChainFromAdd::attributes`'s contract equates each call's effect with
/// `attach_updates`, so this holds of any such calls on one handle.
pub proof fn lemma_attach_once(
    attrs: Map<(usize, usize), Seq<char>>,
    id: usize,
    key: usize,
    s: Seq<char>,
    t: Seq<char>,
)
    requires
        attach_updates(attrs, id, key, s).1,
    ensures
        ({
            let (a1, ok1) = attach_updates(attrs, id, key, s);
            let (a2, ok2) = attach_updates(a1, id, key, s);
            let (a3, ok3) = attach_updates(a1, id, key, t);
            ok2 && a2 == a1 && (t != s ==> !ok3 && a3 == a1)
        }),
{
    let (a1, ok1) = attach_updates(attrs, id, key, s);
    assert(a1.contains_key((id, key)) && a1[(id, key)] == s);
}

} // verus!

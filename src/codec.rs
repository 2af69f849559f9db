//! Conversion between a document and its delimited text: the first line holds
//! the column names, each later line one row, fields separated by commas and
//! lines ended by a newline. Fields are taken as they stand: no quoting.
use vstd::prelude::*;

use crate::error::{Access, CsvError};
use crate::table::{
    all_fit, fits, lemma_all_fit_push, lemma_make_row_fits, make_row, row_values, strings_view, CsvBody, CsvData,
    CsvFile, CsvHeader, CsvRow, RowView,
};
use crate::text::push_char;

verus! {

/// The character that separates fields.
pub const DELIMITER: char = ',';

/// The character that ends a line.
pub const NEWLINE: char = '\n';

/// The pieces of `s` between occurrences of `d`; there is always at least one.
pub open spec fn split(s: Seq<char>, d: char) -> Seq<Seq<char>>
    decreases s.len(),
{
    if s.len() == 0 {
        seq![Seq::<char>::empty()]
    } else {
        let p = split(s.drop_last(), d);
        if s.last() == d {
            p.push(Seq::<char>::empty())
        } else {
            p.update(p.len() - 1, p.last().push(s.last()))
        }
    }
}

/// `s` holds no `c`.
pub open spec fn free_of(s: Seq<char>, c: char) -> bool {
    forall|i: int| 0 <= i < s.len() ==> s[i] != c
}

/// The lines of a text: the pieces between newlines, where a final newline
/// ends the last line rather than starting an empty one.
pub open spec fn lines(text: Seq<char>) -> Seq<Seq<char>> {
    let p = split(text, NEWLINE);
    if p.last().len() == 0 {
        p.drop_last()
    } else {
        p
    }
}

/// Splitting gives at least one piece.
proof fn lemma_split_len(s: Seq<char>, d: char)
    ensures
        split(s, d).len() >= 1,
    decreases s.len(),
{
    if s.len() > 0 {
        lemma_split_len(s.drop_last(), d);
    }
}

/// Splits `s` at every `d`.
fn split_on(s: &str, d: char) -> (r: Vec<String>)
    ensures
        strings_view(r@) == split(s@, d),
{
    let mut pieces: Vec<String> = Vec::new();
    let mut current = String::new();
    let ghost mut seen: Seq<char> = Seq::empty();
    for c in it: s.chars()
        invariant
            it.seq() == s@,
            seen == s@.take(it.index() as int),
            strings_view(pieces@).push(current@) == split(seen, d),
    {
        proof {
            lemma_split_len(seen, d);
            assert(seen.push(c).drop_last() =~= seen);
            assert(s@.take(it.index() + 1) =~= seen.push(c));
        }
        if c == d {
            pieces.push(current);
            current = String::new();
            assert(strings_view(pieces@).push(current@) =~= split(seen, d).push(Seq::<char>::empty()));
        } else {
            push_char(&mut current, c);
            assert(strings_view(pieces@).push(current@) =~= split(seen, d).update(split(seen, d).len() - 1, split(seen, d).last().push(c)));
        }
        proof {
            seen = seen.push(c);
        }
    }
    assert(seen =~= s@);
    pieces.push(current);
    assert(strings_view(pieces@) =~= split(s@, d));
    pieces
}

/// The row read from one line under the header `names`: a line with more
/// fields than columns names a column past the last, one with fewer has the
/// wrong size.
pub open spec fn parse_line(names: Seq<Seq<char>>, line: Seq<char>) -> Result<RowView, CsvError> {
    let fields = split(line, DELIMITER);
    if fields.len() > names.len() {
        Err(
            CsvError::IndexOutOfRange {
                index: names.len() as usize,
                bound: names.len() as usize,
                access: Access::Lookup,
            },
        )
    } else if fields.len() < names.len() {
        Err(CsvError::SizeMismatch { expected: names.len() as usize, actual: fields.len() as usize })
    } else {
        Ok(make_row(names, fields))
    }
}

/// The rows read from `ls`, or the error of the first line that fails.
pub open spec fn parse_rows(names: Seq<Seq<char>>, ls: Seq<Seq<char>>) -> Result<Seq<RowView>, CsvError>
    decreases ls.len(),
{
    if ls.len() == 0 {
        Ok(Seq::empty())
    } else {
        match parse_rows(names, ls.drop_last()) {
            Err(e) => Err(e),
            Ok(rows) => match parse_line(names, ls.last()) {
                Err(e) => Err(e),
                Ok(r) => Ok(rows.push(r)),
            },
        }
    }
}

/// The header and rows read from `text`: the first line gives the column
/// names and each later line a row. An empty text gives an empty document.
pub open spec fn parse_text(text: Seq<char>) -> Result<(Seq<Seq<char>>, Seq<RowView>), CsvError> {
    let ls = lines(text);
    if ls.len() == 0 {
        Ok((Seq::empty(), Seq::empty()))
    } else {
        let names = split(ls[0], DELIMITER);
        match parse_rows(names, ls.skip(1)) {
            Err(e) => Err(e),
            Ok(rows) => Ok((names, rows)),
        }
    }
}

/// Reads a document from its text.
pub fn parse(text: &str) -> (r: Result<CsvFile, CsvError>)
    ensures
        match parse_text(text@) {
            Ok(doc) => (r matches Ok(f) && f.names() == doc.0 && f.rows() == doc.1 && f.wf()),
            Err(e) => (r matches Err(x) && x == e),
        },
{
    let mut ls = split_on(text, NEWLINE);
    proof {
        lemma_split_len(text@, NEWLINE);
    }
    let last = ls.len() - 1;
    if ls[last].as_str().is_empty() {
        ls.pop();
    }
    assert(strings_view(ls@) =~= lines(text@));
    if ls.len() == 0 {
        let r = CsvFile::new(CsvHeader::new(), CsvBody::new());
        assert(r.names() =~= Seq::<Seq<char>>::empty());
        return Ok(r);
    }
    let names = split_on(ls[0].as_str(), DELIMITER);
    let ghost nv = strings_view(names@);
    let mut header = CsvHeader::new();
    for i in 0..names.len()
        invariant
            header@ =~= nv.take(i as int),
            nv == strings_view(names@),
    {
        header.append(names[i].as_str());
        assert(header@ =~= nv.take(i + 1));
    }
    assert(nv.take(names.len() as int) =~= nv);
    let ghost rest = lines(text@).skip(1);
    let mut body = CsvBody::new();
    for k in 1..ls.len()
        invariant
            nv == strings_view(names@),
            lines(text@).len() > 0,
            nv == split(lines(text@)[0], DELIMITER),
            strings_view(ls@) == lines(text@),
            rest == lines(text@).skip(1),
            parse_rows(nv, rest.take(k - 1)) == Ok::<Seq<RowView>, CsvError>(body@),
            all_fit(nv, body@),
    {
        let fields = split_on(ls[k].as_str(), DELIMITER);
        proof {
            assert(rest.take(k as int).drop_last() =~= rest.take(k - 1));
            assert(rest.take(k as int).last() == ls@[k as int]@);
            if parse_line(nv, rest.take(k as int).last()) is Err {
                lemma_parse_rows_error(nv, rest, k as int);
            }
        }
        if fields.len() > names.len() {
            return Err(
                CsvError::IndexOutOfRange {
                    index: names.len(),
                    bound: names.len(),
                    access: Access::Lookup,
                },
            );
        }
        if fields.len() < names.len() {
            return Err(CsvError::SizeMismatch { expected: names.len(), actual: fields.len() });
        }
        let ghost fv = strings_view(fields@);
        let mut row = CsvRow::new();
        for i in 0..fields.len()
            invariant
                fields.len() == names.len(),
                nv == strings_view(names@),
                fv == strings_view(fields@),
                row@ =~= make_row(nv, fv).take(i as int),
        {
            row.append(CsvData::new(names[i].as_str(), fields[i].as_str()));
            assert(row@ =~= make_row(nv, fv).take(i + 1));
        }
        assert(make_row(nv, fv).take(fields.len() as int) =~= make_row(nv, fv));
        proof {
            lemma_make_row_fits(nv, fv);
            lemma_all_fit_push(nv, body@, row@);
        }
        body.append(row);
    }
    assert(rest.take(ls.len() - 1) =~= rest);
    Ok(CsvFile::new(header, body))
}

/// The pieces of `p` with `d` between each two.
pub open spec fn join(p: Seq<Seq<char>>, d: char) -> Seq<char>
    decreases p.len(),
{
    if p.len() == 0 {
        Seq::empty()
    } else if p.len() == 1 {
        p[0]
    } else {
        join(p.drop_last(), d).push(d) + p.last()
    }
}

/// Each line followed by a newline.
pub open spec fn terminated(ls: Seq<Seq<char>>) -> Seq<char>
    decreases ls.len(),
{
    if ls.len() == 0 {
        Seq::empty()
    } else {
        terminated(ls.drop_last()) + ls.last().push(NEWLINE)
    }
}

/// The lines of a document: its column names, then the values of each row,
/// each joined by the delimiter.
pub open spec fn render_lines(names: Seq<Seq<char>>, rows: Seq<RowView>) -> Seq<Seq<char>> {
    seq![join(names, DELIMITER)] + row_lines(rows)
}

/// One line per row: its values joined by the delimiter.
pub open spec fn row_lines(rows: Seq<RowView>) -> Seq<Seq<char>> {
    rows.map_values(|r: RowView| join(row_values(r), DELIMITER))
}

/// The text of a document.
pub open spec fn render_text(names: Seq<Seq<char>>, rows: Seq<RowView>) -> Seq<char> {
    terminated(render_lines(names, rows))
}

fn push_header_line(s: &mut String, h: &CsvHeader)
    ensures
        final(s)@ == old(s)@ + join(h@, DELIMITER).push(NEWLINE),
{
    let n = h.len();
    for i in 0..n
        invariant
            n == h@.len(),
            s@ == old(s)@ + join(h@.take(i as int), DELIMITER),
    {
        assert(h@.take(i + 1).drop_last() =~= h@.take(i as int));
        if i > 0 {
            push_char(s, DELIMITER);
        }
        s.append(h.get(i));
        assert(s@ =~= old(s)@ + join(h@.take(i + 1), DELIMITER));
    }
    assert(h@.take(n as int) =~= h@);
    push_char(s, NEWLINE);
    assert(s@ =~= old(s)@ + join(h@, DELIMITER).push(NEWLINE));
}

fn push_row_line(s: &mut String, row: &CsvRow)
    ensures
        final(s)@ == old(s)@ + join(row_values(row@), DELIMITER).push(NEWLINE),
{
    let n = row.len();
    let ghost vals = row_values(row@);
    for i in 0..n
        invariant
            n == row@.len(),
            vals == row_values(row@),
            s@ == old(s)@ + join(vals.take(i as int), DELIMITER),
    {
        assert(vals.take(i + 1).drop_last() =~= vals.take(i as int));
        if i > 0 {
            push_char(s, DELIMITER);
        }
        s.append(row.value_ref(i));
        assert(s@ =~= old(s)@ + join(vals.take(i + 1), DELIMITER));
    }
    assert(vals.take(n as int) =~= vals);
    push_char(s, NEWLINE);
    assert(s@ =~= old(s)@ + join(vals, DELIMITER).push(NEWLINE));
}

/// Writes a document as text.
pub fn render(doc: &CsvFile) -> (r: String)
    ensures
        r@ == render_text(doc.names(), doc.rows()),
{
    let ghost ls = render_lines(doc.names(), doc.rows());
    let mut s = String::new();
    push_header_line(&mut s, doc.header_ref());
    assert(ls.take(1).drop_last() =~= Seq::<Seq<char>>::empty());
    assert(terminated(ls.take(1).drop_last()) =~= Seq::<char>::empty());
    assert(ls.take(1).last() == join(doc.names(), DELIMITER));
    assert(s@ =~= terminated(ls.take(1)));
    let body = doc.body_ref();
    let n = body.len();
    for k in 0..n
        invariant
            n == doc.rows().len(),
            body@ == doc.rows(),
            ls == render_lines(doc.names(), doc.rows()),
            s@ == terminated(ls.take(k + 1)),
    {
        push_row_line(&mut s, body.row_ref(k));
        assert(ls.take(k + 2).drop_last() =~= ls.take(k + 1));
        assert(s@ =~= terminated(ls.take(k + 2)));
    }
    assert(ls.take(n + 1) =~= ls);
    s
}

/// A line that fails decides the result, whatever follows it.
proof fn lemma_parse_rows_error(names: Seq<Seq<char>>, ls: Seq<Seq<char>>, k: int)
    requires
        0 <= k <= ls.len(),
        parse_rows(names, ls.take(k)) is Err,
    ensures
        parse_rows(names, ls) == parse_rows(names, ls.take(k)),
    decreases ls.len() - k,
{
    if k < ls.len() {
        assert(ls.take(k + 1).drop_last() =~= ls.take(k));
        lemma_parse_rows_error(names, ls, k + 1);
    } else {
        assert(ls.take(k) =~= ls);
    }
}

/// Every piece of `split(s, d)` is free of `d`, and of any `c` that `s` is
/// free of.
proof fn lemma_split_pieces(s: Seq<char>, d: char, c: char)
    ensures
        split(s, d).len() >= 1,
        forall|k: int| 0 <= k < split(s, d).len() ==> #[trigger] free_of(split(s, d)[k], d),
        free_of(s, c) ==> forall|k: int|
            0 <= k < split(s, d).len() ==> #[trigger] free_of(split(s, d)[k], c),
    decreases s.len(),
{
    if s.len() > 0 {
        let p = split(s.drop_last(), d);
        lemma_split_pieces(s.drop_last(), d, c);
        if free_of(s, c) {
            assert(free_of(s.drop_last(), c));
        }
        if s.last() != d {
            let q = p.update(p.len() - 1, p.last().push(s.last()));
            assert forall|k: int| 0 <= k < q.len() implies #[trigger] free_of(q[k], d) by {
                if k == p.len() - 1 {
                    assert(free_of(p[k], d));
                }
            }
            if free_of(s, c) {
                assert forall|k: int| 0 <= k < q.len() implies #[trigger] free_of(q[k], c) by {
                    if k == p.len() - 1 {
                        assert(free_of(p[k], c));
                        assert(s[s.len() - 1] != c);
                    }
                }
            }
        } else {
            let q = p.push(Seq::<char>::empty());
            assert forall|k: int| 0 <= k < q.len() implies #[trigger] free_of(q[k], d) by {
                if k < p.len() {
                    assert(free_of(p[k], d));
                }
            }
            if free_of(s, c) {
                assert forall|k: int| 0 <= k < q.len() implies #[trigger] free_of(q[k], c) by {
                    if k < p.len() {
                        assert(free_of(p[k], c));
                    }
                }
            }
        }
    }
}

/// Text free of the delimiter extends the last piece.
proof fn lemma_split_extend(a: Seq<char>, b: Seq<char>, d: char)
    requires
        free_of(b, d),
    ensures
        split(a + b, d) == split(a, d).update(
            split(a, d).len() - 1,
            split(a, d).last() + b,
        ),
    decreases b.len(),
{
    lemma_split_len(a, d);
    let p = split(a, d);
    if b.len() == 0 {
        assert(a + b =~= a);
        assert(p.last() + b =~= p.last());
        assert(p.update(p.len() - 1, p.last() + b) =~= p);
    } else {
        let b0 = b.drop_last();
        assert(free_of(b0, d));
        lemma_split_extend(a, b0, d);
        assert((a + b).drop_last() =~= a + b0);
        assert((a + b).last() == b.last());
        assert((p.last() + b0).push(b.last()) =~= p.last() + b);
        assert(split(a + b, d) =~= p.update(p.len() - 1, p.last() + b));
    }
}

/// Splitting undoes joining, when no piece holds the delimiter.
proof fn lemma_split_join(v: Seq<Seq<char>>, d: char)
    requires
        v.len() >= 1,
        forall|k: int| 0 <= k < v.len() ==> #[trigger] free_of(v[k], d),
    ensures
        split(join(v, d), d) == v,
    decreases v.len(),
{
    if v.len() == 1 {
        assert(free_of(v[0], d));
        lemma_split_extend(Seq::<char>::empty(), v[0], d);
        assert(Seq::<char>::empty() + v[0] =~= v[0]);
        assert(split(Seq::<char>::empty(), d).update(0, Seq::<char>::empty() + v[0]) =~= v);
    } else {
        let v0 = v.drop_last();
        assert forall|k: int| 0 <= k < v0.len() implies #[trigger] free_of(v0[k], d) by {
            assert(free_of(v[k], d));
        }
        lemma_split_join(v0, d);
        let a = join(v0, d).push(d);
        assert(a.drop_last() =~= join(v0, d));
        assert(split(a, d) == v0.push(Seq::<char>::empty()));
        assert(free_of(v[v.len() - 1], d));
        lemma_split_extend(a, v.last(), d);
        assert(Seq::<char>::empty() + v.last() =~= v.last());
        assert(split(a + v.last(), d) =~= v);
    }
}

/// The lines of a text made of lines ended by newlines, with the empty piece
/// after the final newline.
proof fn lemma_split_terminated(ls: Seq<Seq<char>>)
    requires
        forall|k: int| 0 <= k < ls.len() ==> #[trigger] free_of(ls[k], NEWLINE),
    ensures
        split(terminated(ls), NEWLINE) == ls.push(Seq::<char>::empty()),
    decreases ls.len(),
{
    if ls.len() == 0 {
        assert(split(terminated(ls), NEWLINE) =~= ls.push(Seq::<char>::empty()));
    } else {
        let l0 = ls.drop_last();
        assert forall|k: int| 0 <= k < l0.len() implies #[trigger] free_of(l0[k], NEWLINE) by {
            assert(free_of(ls[k], NEWLINE));
        }
        lemma_split_terminated(l0);
        let a = terminated(l0);
        let l = ls.last();
        assert(free_of(ls[ls.len() - 1], NEWLINE));
        lemma_split_extend(a, l, NEWLINE);
        assert(Seq::<char>::empty() + l =~= l);
        assert(split(a + l, NEWLINE) =~= ls);
        let t = terminated(ls);
        assert(t.drop_last() =~= a + l);
    }
}

/// Joining pieces free of `c` with a delimiter other than `c` gives text free of `c`.
proof fn lemma_join_free(v: Seq<Seq<char>>, d: char, c: char)
    requires
        d != c,
        forall|k: int| 0 <= k < v.len() ==> #[trigger] free_of(v[k], c),
    ensures
        free_of(join(v, d), c),
    decreases v.len(),
{
    if v.len() == 1 {
        assert(free_of(v[0], c));
    } else if v.len() > 1 {
        let v0 = v.drop_last();
        assert forall|k: int| 0 <= k < v0.len() implies #[trigger] free_of(v0[k], c) by {
            assert(free_of(v[k], c));
        }
        lemma_join_free(v0, d, c);
        assert(free_of(v[v.len() - 1], c));
    }
}

/// No value of the row holds a delimiter or a newline.
pub open spec fn row_clean(r: RowView) -> bool {
    forall|i: int|
        0 <= i < r.len() ==> free_of(#[trigger] r[i].1, DELIMITER) && free_of(r[i].1, NEWLINE)
}

/// A document whose text reads back as itself: at least one column, every
/// row fitting the header, and no name or value holding a delimiter or a
/// newline.
pub open spec fn clean(names: Seq<Seq<char>>, rows: Seq<RowView>) -> bool {
    &&& names.len() >= 1
    &&& all_fit(names, rows)
    &&& forall|i: int|
        0 <= i < names.len() ==> free_of(#[trigger] names[i], DELIMITER) && free_of(
            names[i],
            NEWLINE,
        )
    &&& forall|k: int| 0 <= k < rows.len() ==> #[trigger] row_clean(rows[k])
}

proof fn lemma_parse_rendered_rows(names: Seq<Seq<char>>, rows: Seq<RowView>)
    requires
        clean(names, rows),
    ensures
        parse_rows(names, row_lines(rows)) == Ok::<
            Seq<RowView>,
            CsvError,
        >(rows),
    decreases rows.len(),
{
    let ls = row_lines(rows);
    if rows.len() == 0 {
        assert(rows =~= Seq::<RowView>::empty());
    } else {
        let r0 = rows.drop_last();
        assert forall|k: int| 0 <= k < r0.len() implies #[trigger] row_clean(r0[k]) by {
            assert(row_clean(rows[k]));
        }
        assert forall|k: int| 0 <= k < r0.len() implies #[trigger] fits(names, r0[k]) by {
            assert(fits(names, rows[k]));
        }
        lemma_parse_rendered_rows(names, r0);
        assert(ls.drop_last() =~= row_lines(r0));
        let r = rows.last();
        let vals = row_values(r);
        assert(row_clean(rows[rows.len() - 1]));
        assert(fits(names, rows[rows.len() - 1]));
        assert forall|k: int| 0 <= k < vals.len() implies #[trigger] free_of(vals[k], DELIMITER) by {
            assert(free_of(r[k].1, DELIMITER));
        }
        lemma_split_join(vals, DELIMITER);
        assert forall|i: int| 0 <= i < r.len() implies make_row(names, vals)[i] == r[i] by {
            assert(r[i].0 == names[i]);
            assert(vals[i] == r[i].1);
        }
        assert(make_row(names, vals) =~= r);
        assert(ls.last() == join(vals, DELIMITER));
        assert(parse_line(names, ls.last()) == Ok::<RowView, CsvError>(r));
        assert(r0.push(r) =~= rows);
    }
}

/// A clean document reads back from its text as itself.
pub proof fn lemma_render_parse(names: Seq<Seq<char>>, rows: Seq<RowView>)
    requires
        clean(names, rows),
    ensures
        parse_text(render_text(names, rows)) == Ok::<(Seq<Seq<char>>, Seq<RowView>), CsvError>(
            (names, rows),
        ),
{
    let ls = render_lines(names, rows);
    assert forall|i: int| 0 <= i < names.len() implies #[trigger] free_of(names[i], NEWLINE) by {
        assert(free_of(names[i], DELIMITER) && free_of(names[i], NEWLINE));
    }
    assert forall|i: int| 0 <= i < names.len() implies #[trigger] free_of(names[i], DELIMITER) by {
        assert(free_of(names[i], DELIMITER) && free_of(names[i], NEWLINE));
    }
    assert forall|k: int| 0 <= k < ls.len() implies #[trigger] free_of(ls[k], NEWLINE) by {
        if k == 0 {
            lemma_join_free(names, DELIMITER, NEWLINE);
        } else {
            let r = rows[k - 1];
            assert(row_clean(r));
            let vals = row_values(r);
            assert forall|i: int| 0 <= i < vals.len() implies #[trigger] free_of(
                vals[i],
                NEWLINE,
            ) by {
                assert(free_of(r[i].1, NEWLINE));
            }
            lemma_join_free(vals, DELIMITER, NEWLINE);
        }
    }
    lemma_split_terminated(ls);
    assert(lines(render_text(names, rows)) =~= ls);
    lemma_split_join(names, DELIMITER);
    assert(ls.skip(1) =~= row_lines(rows));
    lemma_parse_rendered_rows(names, rows);
}

/// Each row read from `ls` is the i-th line's fields under the names.
proof fn lemma_parse_rows_shape(names: Seq<Seq<char>>, ls: Seq<Seq<char>>)
    requires
        parse_rows(names, ls) is Ok,
    ensures
        parse_rows(names, ls)->Ok_0.len() == ls.len(),
        forall|k: int|
            0 <= k < ls.len() ==> split(#[trigger] ls[k], DELIMITER).len() == names.len()
                && parse_rows(names, ls)->Ok_0[k] == make_row(names, split(ls[k], DELIMITER)),
    decreases ls.len(),
{
    if ls.len() > 0 {
        lemma_parse_rows_shape(names, ls.drop_last());
        assert forall|k: int| 0 <= k < ls.len() implies split(#[trigger] ls[k], DELIMITER).len()
            == names.len() && parse_rows(names, ls)->Ok_0[k] == make_row(
            names,
            split(ls[k], DELIMITER),
        ) by {
            if k < ls.len() - 1 {
                assert(ls.drop_last()[k] == ls[k]);
            }
        }
    }
}

/// Every document read from text with at least one column is clean.
pub proof fn lemma_parse_clean(text: Seq<char>)
    requires
        parse_text(text) is Ok,
        parse_text(text)->Ok_0.0.len() >= 1,
    ensures
        clean(parse_text(text)->Ok_0.0, parse_text(text)->Ok_0.1),
{
    let p = split(text, NEWLINE);
    let ls = lines(text);
    lemma_split_pieces(text, NEWLINE, NEWLINE);
    assert forall|k: int| 0 <= k < ls.len() implies #[trigger] free_of(ls[k], NEWLINE) by {
        assert(ls[k] == p[k]);
        assert(free_of(p[k], NEWLINE));
    }
    let names = split(ls[0], DELIMITER);
    assert(free_of(ls[0], NEWLINE));
    lemma_split_pieces(ls[0], DELIMITER, NEWLINE);
    assert forall|i: int| 0 <= i < names.len() implies free_of(
        #[trigger] names[i],
        DELIMITER,
    ) && free_of(names[i], NEWLINE) by {
        assert(free_of(names[i], DELIMITER));
        assert(free_of(names[i], NEWLINE));
    }
    let rest = ls.skip(1);
    let rows = parse_rows(names, rest)->Ok_0;
    lemma_parse_rows_shape(names, rest);
    assert forall|k: int| 0 <= k < rows.len() implies #[trigger] fits(names, rows[k]) by {
        assert(split(rest[k], DELIMITER).len() == names.len());
        lemma_make_row_fits(names, split(rest[k], DELIMITER));
    }
    assert forall|k: int| 0 <= k < rows.len() implies #[trigger] row_clean(rows[k]) by {
        let line = rest[k];
        assert(line == ls[k + 1]);
        assert(free_of(ls[k + 1], NEWLINE));
        let f = split(line, DELIMITER);
        assert(f.len() == names.len());
        lemma_split_pieces(line, DELIMITER, NEWLINE);
        assert forall|i: int| 0 <= i < rows[k].len() implies free_of(
            #[trigger] rows[k][i].1,
            DELIMITER,
        ) && free_of(rows[k][i].1, NEWLINE) by {
            assert(rows[k][i].1 == f[i]);
            assert(free_of(f[i], DELIMITER));
            assert(free_of(f[i], NEWLINE));
        }
    }
}

/// Writing a document read from text and reading the result back gives the
/// same header names and the same rows, in the same order. A text whose
/// document has no columns (the empty text) is left out: its header line is
/// empty, which reads back as one column with an empty name.
pub proof fn lemma_round_trip(text: Seq<char>)
    requires
        parse_text(text) is Ok,
        parse_text(text)->Ok_0.0.len() >= 1,
    ensures
        parse_text(render_text(parse_text(text)->Ok_0.0, parse_text(text)->Ok_0.1)) == parse_text(
            text,
        ),
{
    lemma_parse_clean(text);
    lemma_render_parse(parse_text(text)->Ok_0.0, parse_text(text)->Ok_0.1);
}

} // verus!

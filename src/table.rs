//! The table model: cells, rows, the header, the body and the document that
//! joins them.
use vstd::prelude::*;

use crate::error::{Access, CsvError};

verus! {

/// A column name and the value stored under it, as plain character sequences.
pub type CellView = (Seq<char>, Seq<char>);

/// A row as its cells, in column order.
pub type RowView = Seq<CellView>;

/// One value of a row together with the name of its column.
#[derive(Debug)]
pub struct CsvData {
    header_name: String,
    value: String,
}

impl View for CsvData {
    type V = CellView;

    closed spec fn view(&self) -> CellView {
        (self.header_name@, self.value@)
    }
}

impl Clone for CsvData {
    fn clone(&self) -> (r: Self)
        ensures
            r@ == self@,
    {
        CsvData { header_name: self.header_name.clone(), value: self.value.clone() }
    }
}

impl CsvData {
    /// A cell holding `value` under the column `header_name`.
    pub fn new(header_name: &str, value: &str) -> (r: Self)
        ensures
            r@ == (header_name@, value@),
    {
        CsvData { header_name: String::from_str(header_name), value: String::from_str(value) }
    }
}

/// The value stored under the first cell of `r` whose column is `name`.
pub open spec fn lookup(r: RowView, name: Seq<char>) -> Option<Seq<char>>
    decreases r.len(),
{
    if r.len() == 0 {
        None
    } else {
        match lookup(r.drop_last(), name) {
            Some(v) => Some(v),
            None => if r.last().0 == name {
                Some(r.last().1)
            } else {
                None
            },
        }
    }
}

/// The values of a row, in column order.
pub open spec fn row_values(r: RowView) -> Seq<Seq<char>> {
    r.map_values(|c: CellView| c.1)
}

/// The characters of each string.
pub open spec fn strings_view(v: Seq<String>) -> Seq<Seq<char>> {
    v.map_values(|s: String| s@)
}

/// The row that pairs the i-th value with the i-th column name.
pub open spec fn make_row(names: Seq<Seq<char>>, values: Seq<Seq<char>>) -> RowView {
    Seq::new(names.len(), |i: int| (names[i], values[i]))
}

/// A row has one cell per column, the i-th cell under the i-th name.
pub open spec fn fits(names: Seq<Seq<char>>, r: RowView) -> bool {
    &&& r.len() == names.len()
    &&& forall|i: int| 0 <= i < r.len() ==> #[trigger] r[i].0 == names[i]
}

/// Every row fits the header.
pub open spec fn all_fit(names: Seq<Seq<char>>, rows: Seq<RowView>) -> bool {
    forall|k: int| 0 <= k < rows.len() ==> #[trigger] fits(names, rows[k])
}

/// `e` reports that no column is named `name`.
pub open spec fn is_column_not_found(e: CsvError, name: Seq<char>) -> bool {
    e matches CsvError::ColumnNotFound { name: n } && n@ == name
}

/// A row: one cell per column.
#[derive(Debug)]
pub struct CsvRow {
    data: Vec<CsvData>,
}

impl View for CsvRow {
    type V = RowView;

    closed spec fn view(&self) -> RowView {
        self.data@.map_values(|c: CsvData| c@)
    }
}

impl Clone for CsvRow {
    fn clone(&self) -> (r: Self)
        ensures
            r@ == self@,
    {
        let mut data: Vec<CsvData> = Vec::new();
        let n = self.data.len();
        for i in 0..n
            invariant
                n == self.data.len(),
                data.len() == i,
                forall|j: int| 0 <= j < i ==> #[trigger] data@[j]@ == self.data@[j]@,
        {
            data.push(self.data[i].clone());
        }
        let r = CsvRow { data };
        assert(r@ =~= self@);
        r
    }
}

impl CsvRow {
    /// A row with no cells.
    pub fn new() -> (r: Self)
        ensures
            r@ == Seq::<CellView>::empty(),
    {
        let r = CsvRow { data: Vec::new() };
        assert(r@ =~= Seq::<CellView>::empty());
        r
    }

    /// Adds a cell at the end.
    pub fn append(&mut self, csv_data: CsvData)
        ensures
            final(self)@ == old(self)@.push(csv_data@),
    {
        self.data.push(csv_data);
        assert(self@ =~= old(self)@.push(csv_data@));
    }

    /// The number of cells.
    pub fn len(&self) -> (r: usize)
        ensures
            r == self@.len(),
    {
        self.data.len()
    }

    /// The value of the cell at `index`.
    pub(crate) fn value_ref(&self, index: usize) -> (r: &str)
        requires
            index < self@.len(),
        ensures
            r@ == self@[index as int].1,
    {
        self.data[index].value.as_str()
    }

    /// The value of the first cell whose column is `header_name`.
    pub fn get_value(&self, header_name: &str) -> (r: Result<String, CsvError>)
        ensures
            match lookup(self@, header_name@) {
                Some(v) => r matches Ok(s) && s@ == v,
                None => r matches Err(e) && is_column_not_found(e, header_name@),
            },
    {
        let wanted = String::from_str(header_name);
        let n = self.data.len();
        for i in 0..n
            invariant
                n == self.data.len(),
                wanted@ == header_name@,
                lookup(self@.take(i as int), header_name@) is None,
        {
            assert(self@.take(i + 1).drop_last() =~= self@.take(i as int));
            if self.data[i].header_name == wanted {
                assert(self@.take(n as int) =~= self@);
                proof {
                    lemma_lookup_prefix(self@, header_name@, i + 1);
                }
                return Ok(self.data[i].value.clone());
            }
        }
        assert(self@.take(n as int) =~= self@);
        Err(CsvError::ColumnNotFound { name: wanted })
    }

    /// The value of the first cell whose column is `header_name`, which must exist.
    pub fn get(self, header_name: &str) -> (r: String)
        requires
            lookup(self@, header_name@) is Some,
        ensures
            lookup(self@, header_name@) == Some(r@),
    {
        match self.get_value(header_name) {
            Ok(v) => v,
            Err(_) => String::new(),
        }
    }
}

/// A lookup that succeeds on a prefix gives the same value on the whole row.
proof fn lemma_lookup_prefix(r: RowView, name: Seq<char>, k: int)
    requires
        0 <= k <= r.len(),
        lookup(r.take(k), name) is Some,
    ensures
        lookup(r, name) == lookup(r.take(k), name),
    decreases r.len() - k,
{
    if k < r.len() {
        assert(r.take(k + 1).drop_last() =~= r.take(k));
        lemma_lookup_prefix(r, name, k + 1);
    } else {
        assert(r.take(k) =~= r);
    }
}


/// The column names, in order.
#[derive(Debug)]
pub struct CsvHeader {
    name: Vec<String>,
}

impl View for CsvHeader {
    type V = Seq<Seq<char>>;

    closed spec fn view(&self) -> Seq<Seq<char>> {
        strings_view(self.name@)
    }
}

impl Clone for CsvHeader {
    fn clone(&self) -> (r: Self)
        ensures
            r@ == self@,
    {
        let mut name: Vec<String> = Vec::new();
        let n = self.name.len();
        for i in 0..n
            invariant
                n == self.name.len(),
                name.len() == i,
                forall|j: int| 0 <= j < i ==> #[trigger] name@[j]@ == self.name@[j]@,
        {
            name.push(self.name[i].clone());
        }
        let r = CsvHeader { name };
        assert(r@ =~= self@);
        r
    }
}

impl CsvHeader {
    /// A header with no columns.
    pub fn new() -> (r: Self)
        ensures
            r@ == Seq::<Seq<char>>::empty(),
    {
        let r = CsvHeader { name: Vec::new() };
        assert(r@ =~= Seq::<Seq<char>>::empty());
        r
    }

    /// Adds a column named `data` at the end.
    pub fn append(&mut self, data: &str)
        ensures
            final(self)@ == old(self)@.push(data@),
    {
        self.name.push(String::from_str(data));
        assert(self@ =~= old(self)@.push(data@));
    }

    /// The name of the column at `index`.
    pub fn get_name(&self, index: usize) -> (r: Result<&str, CsvError>)
        ensures
            index < self@.len() ==> (r matches Ok(s) && s@ == self@[index as int]),
            index >= self@.len() ==> r == Err::<&str, CsvError>(
                CsvError::IndexOutOfRange { index, bound: self@.len() as usize, access: Access::Lookup },
            ),
    {
        if index >= self.name.len() {
            return Err(
                CsvError::IndexOutOfRange { index, bound: self.name.len(), access: Access::Lookup },
            );
        }
        Ok(self.name[index].as_str())
    }

    /// The name of the column at `index`, which must exist.
    pub fn get(&self, index: usize) -> (r: &str)
        requires
            index < self@.len(),
        ensures
            r@ == self@[index as int],
    {
        self.name[index].as_str()
    }

    /// The number of columns.
    pub fn len(&self) -> (r: usize)
        ensures
            r == self@.len(),
    {
        self.name.len()
    }
}

/// The rows, in order.
#[derive(Debug)]
pub struct CsvBody {
    rows: Vec<CsvRow>,
}

impl View for CsvBody {
    type V = Seq<RowView>;

    closed spec fn view(&self) -> Seq<RowView> {
        self.rows@.map_values(|r: CsvRow| r@)
    }
}

impl Clone for CsvBody {
    fn clone(&self) -> (r: Self)
        ensures
            r@ == self@,
    {
        let mut rows: Vec<CsvRow> = Vec::new();
        let n = self.rows.len();
        for i in 0..n
            invariant
                n == self.rows.len(),
                rows.len() == i,
                forall|j: int| 0 <= j < i ==> #[trigger] rows@[j]@ == self.rows@[j]@,
        {
            rows.push(self.rows[i].clone());
        }
        let r = CsvBody { rows };
        assert(r@ =~= self@);
        r
    }
}

impl CsvBody {
    /// A body with no rows.
    pub fn new() -> (r: Self)
        ensures
            r@ == Seq::<RowView>::empty(),
    {
        let r = CsvBody { rows: Vec::new() };
        assert(r@ =~= Seq::<RowView>::empty());
        r
    }

    /// Adds a row at the end.
    pub fn append(&mut self, data: CsvRow)
        ensures
            final(self)@ == old(self)@.push(data@),
    {
        self.rows.push(data);
        assert(self@ =~= old(self)@.push(data@));
    }

    /// A copy of the row at `index`.
    pub fn get_row(&self, index: usize) -> (r: Result<CsvRow, CsvError>)
        ensures
            index < self@.len() ==> (r matches Ok(row) && row@ == self@[index as int]),
            index >= self@.len() ==> (r matches Err(e) && e == (CsvError::IndexOutOfRange {
                index,
                bound: self@.len() as usize,
                access: Access::Lookup,
            })),
    {
        if index >= self.rows.len() {
            return Err(
                CsvError::IndexOutOfRange { index, bound: self.rows.len(), access: Access::Lookup },
            );
        }
        Ok(self.rows[index].clone())
    }

    /// The row at `index`, borrowed.
    pub(crate) fn row_ref(&self, index: usize) -> (r: &CsvRow)
        requires
            index < self@.len(),
        ensures
            r@ == self@[index as int],
    {
        &self.rows[index]
    }

    /// A copy of the row at `row`, which must exist.
    pub fn get(&self, row: usize) -> (r: CsvRow)
        requires
            row < self@.len(),
        ensures
            r@ == self@[row as int],
    {
        self.rows[row].clone()
    }

    /// The number of rows.
    pub fn len(&self) -> (r: usize)
        ensures
            r == self@.len(),
    {
        self.rows.len()
    }
}

/// A document: a header and the rows under it.
#[derive(Debug)]
pub struct CsvFile {
    csv_header: CsvHeader,
    csv_body: CsvBody,
}

impl View for CsvFile {
    type V = (Seq<Seq<char>>, Seq<RowView>);

    closed spec fn view(&self) -> (Seq<Seq<char>>, Seq<RowView>) {
        (self.csv_header@, self.csv_body@)
    }
}

impl CsvFile {
    /// The column names.
    pub open spec fn names(&self) -> Seq<Seq<char>> {
        self@.0
    }

    /// The rows, in order.
    pub open spec fn rows(&self) -> Seq<RowView> {
        self@.1
    }

    /// Every row has one cell per column, under that column's name.
    pub open spec fn wf(&self) -> bool {
        all_fit(self.names(), self.rows())
    }

    /// The document made of `csv_header` and `csv_body`.
    pub fn new(csv_header: CsvHeader, csv_body: CsvBody) -> (r: Self)
        requires
            all_fit(csv_header@, csv_body@),
        ensures
            r.names() == csv_header@,
            r.rows() == csv_body@,
            r.wf(),
    {
        CsvFile { csv_header, csv_body }
    }

    /// The value under the column `header_name` in the row at `row_index`.
    pub fn get_value(&self, header_name: &str, row_index: usize) -> (r: Result<String, CsvError>)
        ensures
            row_index < self.rows().len() ==> match lookup(
                self.rows()[row_index as int],
                header_name@,
            ) {
                Some(v) => (r matches Ok(s) && s@ == v),
                None => (r matches Err(CsvError::ValueLookup { cause }) && is_column_not_found(
                    *cause,
                    header_name@,
                )),
            },
            row_index >= self.rows().len() ==> (r matches Err(CsvError::ValueLookup { cause })
                && *cause == (CsvError::IndexOutOfRange {
                index: row_index,
                bound: self.rows().len() as usize,
                access: Access::Lookup,
            })),
    {
        match self.csv_body.get_row(row_index) {
            Ok(row) => match row.get_value(header_name) {
                Ok(value) => Ok(value),
                Err(e) => Err(CsvError::ValueLookup { cause: Box::new(e) }),
            },
            Err(e) => Err(CsvError::ValueLookup { cause: Box::new(e) }),
        }
    }

    /// The value under the column `header_name` in the row at `row_index`,
    /// both of which must exist.
    pub fn get(&self, header_name: &str, row_index: usize) -> (r: String)
        requires
            row_index < self.rows().len(),
            lookup(self.rows()[row_index as int], header_name@) is Some,
        ensures
            lookup(self.rows()[row_index as int], header_name@) == Some(r@),
    {
        let row = self.csv_body.get(row_index);
        row.get(header_name)
    }

    /// The header, borrowed.
    pub(crate) fn header_ref(&self) -> (r: &CsvHeader)
        ensures
            r@ == self.names(),
    {
        &self.csv_header
    }

    /// The body, borrowed.
    pub(crate) fn body_ref(&self) -> (r: &CsvBody)
        ensures
            r@ == self.rows(),
    {
        &self.csv_body
    }

    /// A copy of the header.
    pub fn get_header(&self) -> (r: CsvHeader)
        ensures
            r@ == self.names(),
    {
        self.csv_header.clone()
    }

    /// A copy of the body.
    pub fn get_body(&self) -> (r: CsvBody)
        ensures
            r@ == self.rows(),
    {
        self.csv_body.clone()
    }

    /// The row that puts `data[i]` under the i-th column.
    pub fn build_row(&self, data: Vec<String>) -> (r: Result<CsvRow, CsvError>)
        ensures
            data.len() == self.names().len() ==> (r matches Ok(row) && row@ == make_row(
                self.names(),
                strings_view(data@),
            )),
            data.len() != self.names().len() ==> r == Err::<CsvRow, CsvError>(
                CsvError::SizeMismatch { expected: self.names().len() as usize, actual: data.len() },
            ),
    {
        let n = self.csv_header.name.len();
        if data.len() != n {
            return Err(CsvError::SizeMismatch { expected: n, actual: data.len() });
        }
        let ghost target = make_row(self.names(), strings_view(data@));
        let mut row = CsvRow::new();
        for i in 0..n
            invariant
                n == self.csv_header.name.len(),
                n == data.len(),
                target == make_row(self.names(), strings_view(data@)),
                row@ =~= target.take(i as int),
        {
            row.append(CsvData::new(self.csv_header.name[i].as_str(), data[i].as_str()));
            assert(row@ =~= target.take(i + 1));
        }
        assert(target.take(n as int) =~= target);
        Ok(row)
    }

    /// Adds a row holding `data` at the end.
    pub fn append(&mut self, data: Vec<String>) -> (r: Result<(), CsvError>)
        ensures
            old(self).wf() ==> final(self).wf(),
            final(self).names() == old(self).names(),
            data.len() == old(self).names().len() ==> r is Ok && final(self).rows() == old(self).rows().push(make_row(old(self).names(), strings_view(data@))),
            data.len() != old(self).names().len() ==> r == Err::<(), CsvError>(
                CsvError::SizeMismatch {
                    expected: old(self).names().len() as usize,
                    actual: data.len(),
                },
            ) && final(self)@ == old(self)@,
            r is Ok ==> final(self).rows().len() == old(self).rows().len() + 1 && row_values(
                final(self).rows().last(),
            ) == strings_view(data@),
    {
        if data.len() != self.csv_header.len() {
            return Err(
                CsvError::SizeMismatch { expected: self.csv_header.len(), actual: data.len() },
            );
        }
        let ghost values = strings_view(data@);
        let row = match self.build_row(data) {
            Ok(row) => row,
            Err(e) => return Err(e),
        };
        self.csv_body.rows.push(row);
        proof {
            assert(self.rows() =~= old(self).rows().push(make_row(old(self).names(), values)));
            lemma_row_values_make_row(self.names(), values);
            lemma_all_fit_push(old(self).names(), old(self).rows(), make_row(old(self).names(), values));
        }
        Ok(())
    }

    /// Puts a row holding `data` at `index`, moving the rows from `index` on
    /// one place later.
    pub fn insert(&mut self, index: usize, data: Vec<String>) -> (r: Result<(), CsvError>)
        ensures
            old(self).wf() ==> final(self).wf(),
            final(self).names() == old(self).names(),
            data.len() != old(self).names().len() ==> r == Err::<(), CsvError>(
                CsvError::SizeMismatch {
                    expected: old(self).names().len() as usize,
                    actual: data.len(),
                },
            ) && final(self)@ == old(self)@,
            data.len() == old(self).names().len() && index > old(self).rows().len() ==> r == Err::<
                (),
                CsvError,
            >(
                CsvError::IndexOutOfRange {
                    index,
                    bound: old(self).rows().len() as usize,
                    access: Access::Position,
                },
            ) && final(self)@ == old(self)@,
            data.len() == old(self).names().len() && index <= old(self).rows().len() ==> r is Ok
                && final(self).rows() == old(self).rows().insert(
                index as int,
                make_row(old(self).names(), strings_view(data@)),
            ),
            r is Ok ==> {
                &&& final(self).rows().len() == old(self).rows().len() + 1
                &&& row_values(final(self).rows()[index as int]) == strings_view(data@)
                &&& forall|j: int|
                    0 <= j < index ==> #[trigger] final(self).rows()[j] == old(self).rows()[j]
                &&& forall|j: int|
                    index <= j < old(self).rows().len()
                        ==> final(self).rows()[j + 1] == #[trigger] old(self).rows()[j]
            },
    {
        if data.len() != self.csv_header.len() {
            return Err(
                CsvError::SizeMismatch { expected: self.csv_header.len(), actual: data.len() },
            );
        }
        if index > self.csv_body.len() {
            return Err(
                CsvError::IndexOutOfRange {
                    index,
                    bound: self.csv_body.len(),
                    access: Access::Position,
                },
            );
        }
        let ghost values = strings_view(data@);
        let row = match self.build_row(data) {
            Ok(row) => row,
            Err(e) => return Err(e),
        };
        self.csv_body.rows.insert(index, row);
        proof {
            let new_row = make_row(old(self).names(), values);
            assert(self.rows() =~= old(self).rows().insert(index as int, new_row));
            lemma_row_values_make_row(self.names(), values);
            if old(self).wf() {
                assert forall|k: int| 0 <= k < self.rows().len() implies #[trigger] fits(
                    self.names(),
                    self.rows()[k],
                ) by {
                    if k < index {
                        assert(fits(self.names(), old(self).rows()[k]));
                    } else if k > index {
                        assert(fits(self.names(), old(self).rows()[k - 1]));
                    }
                }
            }
        }
        Ok(())
    }

    /// Replaces the row at `index` with one holding `data`.
    pub fn update(&mut self, index: usize, data: Vec<String>) -> (r: Result<(), CsvError>)
        ensures
            old(self).wf() ==> final(self).wf(),
            final(self).names() == old(self).names(),
            data.len() != old(self).names().len() ==> r == Err::<(), CsvError>(
                CsvError::SizeMismatch {
                    expected: old(self).names().len() as usize,
                    actual: data.len(),
                },
            ) && final(self)@ == old(self)@,
            data.len() == old(self).names().len() && index >= old(self).rows().len() ==> r == Err::<
                (),
                CsvError,
            >(
                CsvError::IndexOutOfRange {
                    index,
                    bound: old(self).rows().len() as usize,
                    access: Access::Position,
                },
            ) && final(self)@ == old(self)@,
            data.len() == old(self).names().len() && index < old(self).rows().len() ==> r is Ok
                && final(self).rows() == old(self).rows().update(
                index as int,
                make_row(old(self).names(), strings_view(data@)),
            ),
            r is Ok ==> {
                &&& final(self).rows().len() == old(self).rows().len()
                &&& row_values(final(self).rows()[index as int]) == strings_view(data@)
                &&& forall|j: int|
                    0 <= j < old(self).rows().len() && j != index
                        ==> #[trigger] final(self).rows()[j] == old(self).rows()[j]
            },
    {
        if data.len() != self.csv_header.len() {
            return Err(
                CsvError::SizeMismatch { expected: self.csv_header.len(), actual: data.len() },
            );
        }
        if index >= self.csv_body.len() {
            return Err(
                CsvError::IndexOutOfRange {
                    index,
                    bound: self.csv_body.len(),
                    access: Access::Position,
                },
            );
        }
        let ghost values = strings_view(data@);
        let row = match self.build_row(data) {
            Ok(row) => row,
            Err(e) => return Err(e),
        };
        self.csv_body.rows.remove(index);
        self.csv_body.rows.insert(index, row);
        proof {
            let new_row = make_row(old(self).names(), values);
            assert(self.rows() =~= old(self).rows().update(index as int, new_row));
            lemma_row_values_make_row(self.names(), values);
            if old(self).wf() {
                assert forall|k: int| 0 <= k < self.rows().len() implies #[trigger] fits(
                    self.names(),
                    self.rows()[k],
                ) by {
                    if k != index {
                        assert(fits(self.names(), old(self).rows()[k]));
                    }
                }
            }
        }
        Ok(())
    }

    /// Deletes the row at `index`, moving the rows after it one place earlier.
    pub fn remove(&mut self, index: usize) -> (r: Result<(), CsvError>)
        ensures
            old(self).wf() ==> final(self).wf(),
            final(self).names() == old(self).names(),
            index >= old(self).rows().len() ==> r == Err::<(), CsvError>(
                CsvError::IndexOutOfRange {
                    index,
                    bound: old(self).rows().len() as usize,
                    access: Access::Position,
                },
            ) && final(self)@ == old(self)@,
            index < old(self).rows().len() ==> r is Ok && final(self).rows() == old(self).rows().remove(index as int),
            r is Ok ==> {
                &&& final(self).rows().len() + 1 == old(self).rows().len()
                &&& forall|j: int|
                    0 <= j < index ==> #[trigger] final(self).rows()[j] == old(self).rows()[j]
                &&& forall|j: int|
                    index <= j < final(self).rows().len() ==> #[trigger] final(self).rows()[j]
                        == old(self).rows()[j + 1]
            },
    {
        if index >= self.csv_body.len() {
            return Err(
                CsvError::IndexOutOfRange {
                    index,
                    bound: self.csv_body.len(),
                    access: Access::Position,
                },
            );
        }
        self.csv_body.rows.remove(index);
        proof {
            assert(self.rows() =~= old(self).rows().remove(index as int));
            if old(self).wf() {
                assert forall|k: int| 0 <= k < self.rows().len() implies #[trigger] fits(
                    self.names(),
                    self.rows()[k],
                ) by {
                    if k < index {
                        assert(fits(self.names(), old(self).rows()[k]));
                    } else {
                        assert(fits(self.names(), old(self).rows()[k + 1]));
                    }
                }
            }
        }
        Ok(())
    }
}

/// The values of a row built from `values` are `values`.
proof fn lemma_row_values_make_row(names: Seq<Seq<char>>, values: Seq<Seq<char>>)
    requires
        names.len() == values.len(),
    ensures
        row_values(make_row(names, values)) == values,
        fits(names, make_row(names, values)),
{
    assert(row_values(make_row(names, values)) =~= values);
}

/// A row built from as many values as there are names fits those names.
pub proof fn lemma_make_row_fits(names: Seq<Seq<char>>, values: Seq<Seq<char>>)
    requires
        names.len() == values.len(),
    ensures
        fits(names, make_row(names, values)),
{
}

/// Adding a fitting row keeps every row fitting.
pub proof fn lemma_all_fit_push(names: Seq<Seq<char>>, rows: Seq<RowView>, r: RowView)
    requires
        fits(names, r),
    ensures
        all_fit(names, rows) ==> all_fit(names, rows.push(r)),
{
    if all_fit(names, rows) {
        assert forall|k: int| 0 <= k < rows.push(r).len() implies #[trigger] fits(
            names,
            rows.push(r)[k],
        ) by {
            if k < rows.len() {
                assert(fits(names, rows[k]));
            }
        }
    }
}

} // verus!

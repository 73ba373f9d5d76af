use vstd::prelude::*;
use crate::errors::LoadError;

verus! {

// ---------------------------------------------------------------------------
// Name normalization
// ---------------------------------------------------------------------------

/// Bytes that protect a raw tag name from underscore replacement:
/// `_ ( ) < > + ^ .` and the decimal digits. A name made only of these is an
/// emoticon-style tag and keeps its underscores.
pub open spec fn is_kept_byte(b: u8) -> bool {
    ||| b == 95  // '_'
    ||| b == 40  // '('
    ||| b == 41  // ')'
    ||| b == 60  // '<'
    ||| b == 62  // '>'
    ||| b == 43  // '+'
    ||| b == 94  // '^'
    ||| b == 46  // '.'
    ||| (48 <= b && b <= 57)  // '0'..='9'
}

pub open spec fn all_kept(s: Seq<u8>) -> bool {
    forall|i: int| 0 <= i < s.len() ==> is_kept_byte(#[trigger] s[i])
}

/// Underscore replacement on one byte. Multi-byte UTF-8 sequences use only
/// bytes at or above 128, so replacing byte 95 is exactly replacing the
/// character `_`.
pub open spec fn swap_underscore(b: u8) -> u8 {
    if b == 95 {
        32  // ' '
    } else {
        b
    }
}

/// The normalized form of a raw tag name: unchanged when every byte is a
/// protected byte, otherwise every underscore becomes a space.
pub open spec fn normalized(s: Seq<u8>) -> Seq<u8> {
    if all_kept(s) {
        s
    } else {
        s.map_values(|b: u8| swap_underscore(b))
    }
}

fn is_kept_byte_exec(b: u8) -> (r: bool)
    ensures
        r == is_kept_byte(b),
{
    b == 95 || b == 40 || b == 41 || b == 60 || b == 62 || b == 43 || b == 94 || b == 46 || (48
        <= b && b <= 57)
}

/// Normalize one raw tag name.
pub fn normalize_name(name: &Vec<u8>) -> (r: Vec<u8>)
    ensures
        r@ == normalized(name@),
{
    let mut kept = true;
    let mut i: usize = 0;
    while i < name.len()
        invariant
            i <= name@.len(),
            kept == all_kept(name@.take(i as int)),
        decreases name.len() - i,
    {
        let k = is_kept_byte_exec(name[i]);
        proof {
            if kept && k {
                assert forall|j: int| 0 <= j < i + 1 implies is_kept_byte(
                    #[trigger] name@.take(i + 1)[j],
                ) by {
                    if j < i {
                        assert(name@.take(i as int)[j] == name@.take(i + 1)[j]);
                    }
                }
            }
            if !k {
                assert(!is_kept_byte(name@.take(i + 1)[i as int]));
            }
            if !kept {
                let w = choose|j: int|
                    0 <= j < i && !is_kept_byte(#[trigger] name@.take(i as int)[j]);
                assert(!is_kept_byte(name@.take(i + 1)[w]));
            }
        }
        kept = kept && k;
        i = i + 1;
    }
    assert(name@.take(name@.len() as int) == name@);
    if kept {
        name.clone()
    } else {
        let mut out: Vec<u8> = Vec::new();
        let mut j: usize = 0;
        while j < name.len()
            invariant
                j <= name@.len(),
                out@.len() == j,
                forall|k: int| 0 <= k < j ==> out@[k] == swap_underscore(#[trigger] name@[k]),
            decreases name.len() - j,
        {
            let b = name[j];
            if b == 95 {
                out.push(32);
            } else {
                out.push(b);
            }
            j = j + 1;
        }
        assert(out@ =~= name@.map_values(|b: u8| swap_underscore(b)));
        out
    }
}

/// Law: normalization is idempotent. Applying it twice to a raw name gives
/// the same result as applying it once.
pub proof fn lemma_normalize_idempotent(s: Seq<u8>)
    ensures
        normalized(normalized(s)) == normalized(s),
{
    if all_kept(s) {
    } else {
        let r = s.map_values(|b: u8| swap_underscore(b));
        if all_kept(r) {
        } else {
            assert forall|i: int| 0 <= i < r.len() implies r.map_values(
                |b: u8| swap_underscore(b),
            )[i] == r[i] by {
                assert(r[i] == swap_underscore(s[i]));
            }
            assert(r.map_values(|b: u8| swap_underscore(b)) =~= r);
        }
    }
}

// ---------------------------------------------------------------------------
// The label source grammar: newline-separated records of comma-separated
// fields, a header row first, optional carriage return before each newline.
// ---------------------------------------------------------------------------

/// Split a byte sequence at every occurrence of `sep`. The result always has
/// at least one (possibly empty) piece.
pub open spec fn split_on(s: Seq<u8>, sep: u8) -> Seq<Seq<u8>>
    decreases s.len(),
{
    if s.len() == 0 {
        seq![Seq::<u8>::empty()]
    } else if s[0] == sep {
        seq![Seq::<u8>::empty()] + split_on(s.drop_first(), sep)
    } else {
        let rest = split_on(s.drop_first(), sep);
        seq![seq![s[0]] + rest[0]] + rest.drop_first()
    }
}

pub proof fn lemma_split_on_len(s: Seq<u8>, sep: u8)
    ensures
        split_on(s, sep).len() >= 1,
    decreases s.len(),
{
    if s.len() > 0 {
        lemma_split_on_len(s.drop_first(), sep);
    }
}

/// `parts` with `p` glued onto the front of its first piece.
spec fn prepend_first(p: Seq<u8>, parts: Seq<Seq<u8>>) -> Seq<Seq<u8>> {
    seq![p + parts[0]] + parts.drop_first()
}

/// Split a byte string at every occurrence of `sep`.
pub fn split_bytes(s: &Vec<u8>, sep: u8) -> (r: Vec<Vec<u8>>)
    ensures
        r.deep_view() == split_on(s@, sep),
        r@.len() >= 1,
{
    let mut fields: Vec<Vec<u8>> = Vec::new();
    let mut cur: Vec<u8> = Vec::new();
    let mut i: usize = 0;
    proof {
        lemma_split_on_len(s@, sep);
        assert(s@.skip(0) == s@);
        assert(prepend_first(cur@, split_on(s@, sep)) =~= split_on(s@, sep));
    }
    while i < s.len()
        invariant
            i <= s@.len(),
            cur@.len() <= i,
            split_on(s@, sep) == fields.deep_view() + prepend_first(
                cur@,
                split_on(s@.skip(i as int), sep),
            ),
        decreases s.len() - i,
    {
        let ghost tail = s@.skip(i as int);
        proof {
            assert(tail.len() > 0);
            assert(tail[0] == s@[i as int]);
            assert(tail.drop_first() =~= s@.skip(i + 1));
            lemma_split_on_len(s@.skip(i + 1), sep);
        }
        let b = s[i];
        if b == sep {
            let ghost old_fields = fields.deep_view();
            let ghost old_cur = cur@;
            let done = cur;
            cur = Vec::new();
            fields.push(done);
            proof {
                assert(split_on(tail, sep) =~= seq![Seq::<u8>::empty()] + split_on(
                    s@.skip(i + 1),
                    sep,
                ));
                assert(prepend_first(old_cur, split_on(tail, sep)) =~= seq![old_cur] + split_on(
                    s@.skip(i + 1),
                    sep,
                ));
                assert(fields.deep_view() =~~= old_fields.push(old_cur));
                assert(prepend_first(cur@, split_on(s@.skip(i + 1), sep)) =~= split_on(
                    s@.skip(i + 1),
                    sep,
                ));
                assert(fields.deep_view() + prepend_first(cur@, split_on(s@.skip(i + 1), sep))
                    =~= old_fields + prepend_first(old_cur, split_on(tail, sep)));
            }
        } else {
            let ghost old_cur = cur@;
            cur.push(b);
            proof {
                let rest = split_on(s@.skip(i + 1), sep);
                assert(split_on(tail, sep) =~= seq![seq![s@[i as int]] + rest[0]]
                    + rest.drop_first());
                assert(old_cur + (seq![s@[i as int]] + rest[0]) =~= cur@ + rest[0]);
                assert(prepend_first(old_cur, split_on(tail, sep)) =~= prepend_first(cur@, rest));
            }
        }
        i = i + 1;
    }
    proof {
        assert(s@.skip(s@.len() as int) =~= Seq::<u8>::empty());
        assert(split_on(Seq::<u8>::empty(), sep) =~= seq![Seq::<u8>::empty()]);
        assert(prepend_first(cur@, seq![Seq::<u8>::empty()]) =~= seq![cur@]);
    }
    let ghost final_fields = fields.deep_view();
    fields.push(cur);
    proof {
        assert(fields.deep_view() =~~= final_fields.push(cur@));
        assert(fields.deep_view() =~= split_on(s@, sep));
    }
    fields
}

/// A record with its trailing carriage return removed.
pub open spec fn strip_cr(l: Seq<u8>) -> Seq<u8> {
    if l.len() > 0 && l.last() == 13 {
        l.drop_last()
    } else {
        l
    }
}

/// The non-empty records of the label source: pieces between newlines, each
/// without its trailing carriage return, blank records dropped.
pub open spec fn logical_lines(text: Seq<u8>) -> Seq<Seq<u8>> {
    split_on(text, 10).map_values(|l: Seq<u8>| strip_cr(l)).filter(|l: Seq<u8>| l.len() > 0)
}

/// Split the label source into its non-empty records.
pub fn split_lines(text: &Vec<u8>) -> (r: Vec<Vec<u8>>)
    ensures
        r.deep_view() == logical_lines(text@),
{
    let raw = split_bytes(text, 10);
    let mut lines: Vec<Vec<u8>> = Vec::new();
    let mut i: usize = 0;
    proof {
        reveal(Seq::filter);
        assert(raw.deep_view().take(0) =~= Seq::<Seq<u8>>::empty());
        assert(lines.deep_view() =~= raw.deep_view().take(0).map_values(
            |l: Seq<u8>| strip_cr(l),
        ).filter(|l: Seq<u8>| l.len() > 0));
    }
    while i < raw.len()
        invariant
            i <= raw@.len(),
            lines.deep_view() == raw.deep_view().take(i as int).map_values(
                |l: Seq<u8>| strip_cr(l),
            ).filter(|l: Seq<u8>| l.len() > 0),
        decreases raw.len() - i,
    {
        let ghost pre = raw.deep_view().take(i as int).map_values(|l: Seq<u8>| strip_cr(l));
        let mut line = raw[i].clone();
        if line.len() > 0 && line[line.len() - 1] == 13 {
            line.pop();
        }
        assert(line@ == strip_cr(raw.deep_view()[i as int]));
        let ghost old_lines = lines.deep_view();
        if line.len() > 0 {
            lines.push(line);
        }
        proof {
            reveal(Seq::filter);
            let post = raw.deep_view().take(i + 1).map_values(|l: Seq<u8>| strip_cr(l));
            assert(raw.deep_view().take(i + 1).drop_last() =~= raw.deep_view().take(i as int));
            assert(post.drop_last() =~= pre);
            assert(post.last() == strip_cr(raw.deep_view()[i as int]));
            assert(post =~= pre.push(strip_cr(raw.deep_view()[i as int])));
            if strip_cr(raw.deep_view()[i as int]).len() > 0 {
                assert(lines.deep_view() =~~= old_lines.push(strip_cr(raw.deep_view()[i as int])));
            }
            assert(lines.deep_view() =~= post.filter(|l: Seq<u8>| l.len() > 0));
        }
        i = i + 1;
    }
    assert(raw.deep_view().take(raw@.len() as int) == raw.deep_view());
    lines
}

// ---------------------------------------------------------------------------
// Small-integer category codes
// ---------------------------------------------------------------------------

pub open spec fn is_digit(b: u8) -> bool {
    48 <= b && b <= 57
}

pub open spec fn all_digits(s: Seq<u8>) -> bool {
    forall|i: int| 0 <= i < s.len() ==> is_digit(#[trigger] s[i])
}

/// The value of a decimal digit string.
pub open spec fn digits_val(s: Seq<u8>) -> int
    decreases s.len(),
{
    if s.len() == 0 {
        0
    } else {
        digits_val(s.drop_last()) * 10 + (s.last() - 48)
    }
}

/// A field holds a category code when it is a non-empty digit string whose
/// value fits in one byte.
pub open spec fn parses_as_u8(s: Seq<u8>) -> bool {
    s.len() > 0 && all_digits(s) && digits_val(s) <= 255
}

proof fn lemma_digits_val_nonneg(s: Seq<u8>)
    requires
        all_digits(s),
    ensures
        digits_val(s) >= 0,
    decreases s.len(),
{
    if s.len() > 0 {
        assert(all_digits(s.drop_last())) by {
            assert(forall|i: int|
                0 <= i < s.len() - 1 ==> #[trigger] s.drop_last()[i] == s[i]);
        }
        lemma_digits_val_nonneg(s.drop_last());
    }
}

proof fn lemma_digits_val_grows(s: Seq<u8>, i: int)
    requires
        all_digits(s),
        0 <= i <= s.len(),
    ensures
        digits_val(s) >= digits_val(s.take(i)),
    decreases s.len() - i,
{
    assert(all_digits(s.take(i))) by {
        assert(forall|j: int| 0 <= j < i ==> #[trigger] s.take(i)[j] == s[j]);
    }
    if i == s.len() {
        assert(s.take(i) == s);
    } else {
        lemma_digits_val_grows(s, i + 1);
        assert(s.take(i + 1).drop_last() =~= s.take(i));
        assert(digits_val(s.take(i + 1)) == digits_val(s.take(i)) * 10 + (s[i] - 48));
        lemma_digits_val_nonneg(s.take(i));
    }
}

/// Read a category code from one field.
pub fn parse_u8(s: &Vec<u8>) -> (r: Option<u8>)
    ensures
        r is Some <==> parses_as_u8(s@),
        r is Some ==> r->0 == digits_val(s@),
{
    if s.len() == 0 {
        return None;
    }
    let mut val: u32 = 0;
    let mut i: usize = 0;
    while i < s.len()
        invariant
            i <= s@.len(),
            all_digits(s@.take(i as int)),
            val == digits_val(s@.take(i as int)),
            val <= 255,
        decreases s.len() - i,
    {
        let b = s[i];
        proof {
            assert(s@.take(i + 1).drop_last() =~= s@.take(i as int));
            assert(s@.take(i + 1).last() == s@[i as int]);
        }
        if !(48 <= b && b <= 57) {
            assert(!is_digit(s@[i as int]));
            return None;
        }
        proof {
            assert forall|j: int| 0 <= j < i + 1 implies is_digit(#[trigger] s@.take(i + 1)[j]) by {
                if j < i {
                    assert(s@.take(i + 1)[j] == s@.take(i as int)[j]);
                }
            }
        }
        val = val * 10 + ((b - 48) as u32);
        if val > 255 {
            proof {
                if all_digits(s@) {
                    lemma_digits_val_grows(s@, i + 1);
                    assert(digits_val(s@) >= digits_val(s@.take(i + 1)));
                }
            }
            return None;
        }
        i = i + 1;
    }
    assert(s@.take(s@.len() as int) == s@);
    Some(val as u8)
}

// ---------------------------------------------------------------------------
// Header columns
// ---------------------------------------------------------------------------

/// The header label of the tag-name column: `name`.
pub open spec fn name_label() -> Seq<u8> {
    seq![110u8, 97u8, 109u8, 101u8]
}

/// The header label of the category column: `category`.
pub open spec fn category_label() -> Seq<u8> {
    seq![99u8, 97u8, 116u8, 101u8, 103u8, 111u8, 114u8, 121u8]
}

/// The first position of `label` among the header fields, or `-1`.
pub open spec fn col_of(header: Seq<Seq<u8>>, label: Seq<u8>) -> int
    decreases header.len(),
{
    if header.len() == 0 {
        -1
    } else if header[0] == label {
        0
    } else {
        let r = col_of(header.drop_first(), label);
        if r < 0 {
            -1
        } else {
            r + 1
        }
    }
}

pub proof fn lemma_col_of_first(header: Seq<Seq<u8>>, label: Seq<u8>, i: int)
    requires
        0 <= i < header.len(),
        header[i] == label,
        forall|j: int| 0 <= j < i ==> header[j] != label,
    ensures
        col_of(header, label) == i,
    decreases i,
{
    if i > 0 {
        assert(forall|j: int|
            0 <= j < i - 1 ==> #[trigger] header.drop_first()[j] == header[j + 1]);
        lemma_col_of_first(header.drop_first(), label, i - 1);
    }
}

pub proof fn lemma_col_of_none(header: Seq<Seq<u8>>, label: Seq<u8>)
    requires
        forall|j: int| 0 <= j < header.len() ==> header[j] != label,
    ensures
        col_of(header, label) == -1,
    decreases header.len(),
{
    if header.len() > 0 {
        assert(forall|j: int|
            0 <= j < header.len() - 1 ==> #[trigger] header.drop_first()[j] == header[j + 1]);
        lemma_col_of_none(header.drop_first(), label);
    }
}

/// The deep view of a nested byte vector, element by element.
proof fn lemma_elem_bytes(v: &Vec<Vec<u8>>, i: int)
    requires
        0 <= i < v@.len(),
    ensures
        v.deep_view()[i] == v@[i]@,
{
    assert(v.deep_view()[i] =~= v@[i]@);
}

fn bytes_eq(a: &Vec<u8>, b: &Vec<u8>) -> (r: bool)
    ensures
        r == (a@ == b@),
{
    if a.len() != b.len() {
        return false;
    }
    let mut i: usize = 0;
    while i < a.len()
        invariant
            i <= a@.len(),
            a@.len() == b@.len(),
            forall|j: int| 0 <= j < i ==> a@[j] == b@[j],
        decreases a.len() - i,
    {
        if a[i] != b[i] {
            return false;
        }
        i = i + 1;
    }
    proof {
        assert(a@ =~= b@);
    }
    true
}

/// Find the first header field equal to `label`.
fn find_column(header: &Vec<Vec<u8>>, label: &Vec<u8>) -> (r: Option<usize>)
    ensures
        r is Some ==> r->0 < header@.len() && col_of(header.deep_view(), label@) == r->0 as int,
        r is None ==> col_of(header.deep_view(), label@) == -1,
{
    let mut i: usize = 0;
    while i < header.len()
        invariant
            i <= header@.len(),
            forall|j: int| 0 <= j < i ==> header.deep_view()[j] != label@,
        decreases header.len() - i,
    {
        proof {
            lemma_elem_bytes(header, i as int);
        }
        if bytes_eq(&header[i], label) {
            proof {
                lemma_col_of_first(header.deep_view(), label@, i as int);
            }
            return Some(i);
        }
        i = i + 1;
    }
    proof {
        lemma_col_of_none(header.deep_view(), label@);
    }
    None
}

// ---------------------------------------------------------------------------
// Rows and the catalog
// ---------------------------------------------------------------------------

/// Category code of a rating tag.
pub const RATING_CODE: u8 = 9;

/// Category code of a general descriptive tag.
pub const GENERAL_CODE: u8 = 0;

/// Category code of a character identity tag.
pub const CHARACTER_CODE: u8 = 4;

/// One parsed record of the label source: a raw name and a category code.
#[derive(Debug)]
pub struct TagRow {
    pub name: Vec<u8>,
    pub category: u8,
}

impl View for TagRow {
    type V = (Seq<u8>, u8);

    open spec fn view(&self) -> (Seq<u8>, u8) {
        (self.name@, self.category)
    }
}

impl DeepView for TagRow {
    type V = (Seq<u8>, u8);

    open spec fn deep_view(&self) -> (Seq<u8>, u8) {
        self.view()
    }
}

/// The rows a well-formed label source denotes, in source order.
pub open spec fn rows_of(text: Seq<u8>) -> Seq<(Seq<u8>, u8)> {
    let ls = logical_lines(text);
    if ls.len() <= 1 {
        Seq::empty()
    } else {
        let h = split_on(ls[0], 44);
        let nc = col_of(h, name_label());
        let cc = col_of(h, category_label());
        Seq::new((ls.len() - 1) as nat, |k: int| {
            let f = split_on(ls[k + 1], 44);
            (f[nc], digits_val(f[cc]) as u8)
        })
    }
}

/// A label source is well formed when its header names the `name` and
/// `category` columns, every record has as many fields as the header, and
/// every category field is a small decimal integer. A source without records
/// is well formed and denotes the empty catalog.
pub open spec fn catalog_source_ok(text: Seq<u8>) -> bool {
    let ls = logical_lines(text);
    ls.len() <= 1 || {
        let h = split_on(ls[0], 44);
        &&& col_of(h, name_label()) >= 0
        &&& col_of(h, category_label()) >= 0
        &&& forall|k: int|
            1 <= k < ls.len() ==> {
                let f = split_on(#[trigger] ls[k], 44);
                f.len() == h.len() && parses_as_u8(f[col_of(h, category_label())])
            }
    }
}

/// The normalized tag names of a row list, in row order.
pub open spec fn spec_names(rows: Seq<(Seq<u8>, u8)>) -> Seq<Seq<u8>> {
    rows.map_values(|r: (Seq<u8>, u8)| normalized(r.0))
}

/// The positions of the rows carrying category `code`, in row order.
pub open spec fn spec_indices(rows: Seq<(Seq<u8>, u8)>, code: u8) -> Seq<int>
    decreases rows.len(),
{
    if rows.len() == 0 {
        Seq::empty()
    } else {
        let pre = spec_indices(rows.drop_last(), code);
        if rows.last().1 == code {
            pre.push(rows.len() - 1)
        } else {
            pre
        }
    }
}

pub proof fn lemma_spec_indices_props(rows: Seq<(Seq<u8>, u8)>, code: u8)
    ensures
        forall|p: int|
            0 <= p < spec_indices(rows, code).len() ==> {
                &&& 0 <= #[trigger] spec_indices(rows, code)[p] < rows.len()
                &&& rows[spec_indices(rows, code)[p]].1 == code
            },
        forall|p: int, q: int|
            0 <= p < q < spec_indices(rows, code).len() ==> spec_indices(rows, code)[p]
                < spec_indices(rows, code)[q],
        forall|i: int|
            0 <= i < rows.len() && rows[i].1 == code ==> spec_indices(rows, code).contains(i),
    decreases rows.len(),
{
    if rows.len() > 0 {
        lemma_spec_indices_props(rows.drop_last(), code);
        let pre = spec_indices(rows.drop_last(), code);
        assert(forall|i: int|
            0 <= i < rows.len() - 1 ==> #[trigger] rows.drop_last()[i] == rows[i]);
        assert forall|i: int|
            0 <= i < rows.len() && rows[i].1 == code implies spec_indices(rows, code).contains(
            i,
        ) by {
            if i < rows.len() - 1 {
                assert(pre.contains(i));
                let p = choose|p: int| 0 <= p < pre.len() && pre[p] == i;
                assert(spec_indices(rows, code)[p] == i);
            } else {
                assert(spec_indices(rows, code).last() == i);
            }
        }
    }
}

proof fn lemma_wf_list_from_indices(l: Seq<usize>, rows: Seq<(Seq<u8>, u8)>, code: u8)
    requires
        indices_model(l) == spec_indices(rows, code),
    ensures
        LabelCatalog::wf_list(l, rows.len()),
{
    lemma_spec_indices_props(rows, code);
    assert forall|p: int| 0 <= p < l.len() implies (#[trigger] l[p]) < rows.len() by {
        assert(indices_model(l)[p] == l[p] as int);
    }
    assert forall|p: int, q: int| 0 <= p < q < l.len() implies l[p] < l[q] by {
        assert(indices_model(l)[p] == l[p] as int);
        assert(indices_model(l)[q] == l[q] as int);
    }
}

/// The ordered tag list and the per-category index partitions.
#[derive(Debug)]
pub struct LabelCatalog {
    /// Normalized tag names; position is identity and aligns with scores.
    pub tag_names: Vec<Vec<u8>>,
    /// Positions of rating tags, in catalog order.
    pub rating_i: Vec<usize>,
    /// Positions of general tags, in catalog order.
    pub general_i: Vec<usize>,
    /// Positions of character tags, in catalog order.
    pub character_i: Vec<usize>,
}

pub open spec fn indices_model(v: Seq<usize>) -> Seq<int> {
    v.map_values(|u: usize| u as int)
}

impl LabelCatalog {
    /// The catalog holds exactly what `rows` denotes: the normalized names in
    /// row order, and each category partition in row order.
    pub open spec fn matches_rows(self, rows: Seq<(Seq<u8>, u8)>) -> bool {
        &&& self.tag_names.deep_view() == spec_names(rows)
        &&& indices_model(self.rating_i@) == spec_indices(rows, RATING_CODE)
        &&& indices_model(self.general_i@) == spec_indices(rows, GENERAL_CODE)
        &&& indices_model(self.character_i@) == spec_indices(rows, CHARACTER_CODE)
    }

    /// Structural invariant: every partition holds in-bounds positions in
    /// strictly increasing order, and no position is in two partitions.
    pub open spec fn wf(self) -> bool {
        &&& Self::wf_list(self.rating_i@, self.tag_names@.len())
        &&& Self::wf_list(self.general_i@, self.tag_names@.len())
        &&& Self::wf_list(self.character_i@, self.tag_names@.len())
        &&& forall|p: int, q: int|
            0 <= p < self.rating_i@.len() && 0 <= q < self.general_i@.len()
                ==> self.rating_i@[p] != self.general_i@[q]
        &&& forall|p: int, q: int|
            0 <= p < self.rating_i@.len() && 0 <= q < self.character_i@.len()
                ==> self.rating_i@[p] != self.character_i@[q]
        &&& forall|p: int, q: int|
            0 <= p < self.general_i@.len() && 0 <= q < self.character_i@.len()
                ==> self.general_i@[p] != self.character_i@[q]
    }

    pub open spec fn wf_list(l: Seq<usize>, n: nat) -> bool {
        &&& forall|p: int| 0 <= p < l.len() ==> (#[trigger] l[p]) < n
        &&& forall|p: int, q: int| 0 <= p < q < l.len() ==> l[p] < l[q]
    }

    /// Number of catalog entries.
    pub fn len(&self) -> (n: usize)
        ensures
            n == self.tag_names@.len(),
    {
        self.tag_names.len()
    }

    /// Build the catalog from parsed rows: normalize each name, keep row
    /// order as entry position, and partition positions by category code.
    pub fn from_rows(rows: &Vec<TagRow>) -> (c: LabelCatalog)
        ensures
            c.matches_rows(rows.deep_view()),
            c.wf(),
    {
        let ghost model = rows.deep_view();
        let mut tag_names: Vec<Vec<u8>> = Vec::new();
        let mut rating_i: Vec<usize> = Vec::new();
        let mut general_i: Vec<usize> = Vec::new();
        let mut character_i: Vec<usize> = Vec::new();
        let mut i: usize = 0;
        proof {
            assert(model.take(0) =~= Seq::<(Seq<u8>, u8)>::empty());
            assert(tag_names.deep_view() =~= spec_names(model.take(0)));
            assert(indices_model(rating_i@) =~= spec_indices(model.take(0), RATING_CODE));
            assert(indices_model(general_i@) =~= spec_indices(model.take(0), GENERAL_CODE));
            assert(indices_model(character_i@) =~= spec_indices(model.take(0), CHARACTER_CODE));
        }
        while i < rows.len()
            invariant
                i <= rows@.len(),
                model == rows.deep_view(),
                model.len() == rows@.len(),
                tag_names@.len() == i,
                tag_names.deep_view() == spec_names(model.take(i as int)),
                indices_model(rating_i@) == spec_indices(model.take(i as int), RATING_CODE),
                indices_model(general_i@) == spec_indices(model.take(i as int), GENERAL_CODE),
                indices_model(character_i@) == spec_indices(model.take(i as int), CHARACTER_CODE),
            decreases rows.len() - i,
        {
            let ghost pre = model.take(i as int);
            let ghost post = model.take(i + 1);
            proof {
                assert(post.drop_last() =~= pre);
                assert(post.last() == model[i as int]);
            }
            let row = &rows[i];
            let name = normalize_name(&row.name);
            let ghost old_names = tag_names.deep_view();
            tag_names.push(name);
            proof {
                assert(tag_names.deep_view() =~~= old_names.push(normalized(model[i as int].0)));
                assert(spec_names(post) =~= spec_names(pre).push(normalized(model[i as int].0)));
            }
            if row.category == RATING_CODE {
                let ghost old = indices_model(rating_i@);
                rating_i.push(i);
                assert(indices_model(rating_i@) =~= old.push(i as int));
            } else if row.category == GENERAL_CODE {
                let ghost old = indices_model(general_i@);
                general_i.push(i);
                assert(indices_model(general_i@) =~= old.push(i as int));
            } else if row.category == CHARACTER_CODE {
                let ghost old = indices_model(character_i@);
                character_i.push(i);
                assert(indices_model(character_i@) =~= old.push(i as int));
            }
            proof {
                assert(model[i as int].1 == rows@[i as int].category);
            }
            i = i + 1;
        }
        proof {
            assert(model.take(model.len() as int) == model);
        }
        let c = LabelCatalog { tag_names, rating_i, general_i, character_i };
        proof {
            lemma_spec_indices_props(model, RATING_CODE);
            lemma_spec_indices_props(model, GENERAL_CODE);
            lemma_spec_indices_props(model, CHARACTER_CODE);
            assert(spec_names(model).len() == model.len());
            assert(c.tag_names@.len() == c.tag_names.deep_view().len());
            lemma_wf_list_from_indices(c.rating_i@, model, RATING_CODE);
            lemma_wf_list_from_indices(c.general_i@, model, GENERAL_CODE);
            lemma_wf_list_from_indices(c.character_i@, model, CHARACTER_CODE);
            assert forall|p: int, q: int|
                0 <= p < c.rating_i@.len() && 0 <= q < c.general_i@.len() implies c.rating_i@[p]
                != c.general_i@[q] by {
                assert(model[indices_model(c.rating_i@)[p]].1 == RATING_CODE);
                assert(model[indices_model(c.general_i@)[q]].1 == GENERAL_CODE);
            }
            assert forall|p: int, q: int|
                0 <= p < c.rating_i@.len() && 0 <= q < c.character_i@.len() implies c.rating_i@[p]
                != c.character_i@[q] by {
                assert(model[indices_model(c.rating_i@)[p]].1 == RATING_CODE);
                assert(model[indices_model(c.character_i@)[q]].1 == CHARACTER_CODE);
            }
            assert forall|p: int, q: int|
                0 <= p < c.general_i@.len() && 0 <= q < c.character_i@.len() implies c.general_i@[p]
                != c.character_i@[q] by {
                assert(model[indices_model(c.general_i@)[p]].1 == GENERAL_CODE);
                assert(model[indices_model(c.character_i@)[q]].1 == CHARACTER_CODE);
            }
        }
        c
    }

    /// Parse the label source.
    ///
    /// Returns the catalog the source denotes, or `CatalogParseError` when a
    /// header column is missing, a record's field count differs from the
    /// header's, or a category field is not a small decimal integer.
    pub fn parse(text: &Vec<u8>) -> (r: Result<LabelCatalog, LoadError>)
        ensures
            r is Ok <==> catalog_source_ok(text@),
            r is Ok ==> r->Ok_0.matches_rows(rows_of(text@)) && r->Ok_0.wf(),
            r is Err ==> r->Err_0 == LoadError::CatalogParseError,
    {
        let lines = split_lines(text);
        let ghost ls = logical_lines(text@);
        if lines.len() <= 1 {
            let empty_rows: Vec<TagRow> = Vec::new();
            let c = LabelCatalog::from_rows(&empty_rows);
            proof {
                assert(rows_of(text@) =~= Seq::<(Seq<u8>, u8)>::empty());
                assert(empty_rows.deep_view() =~= Seq::<(Seq<u8>, u8)>::empty());
            }
            return Ok(c);
        }
        let header = split_bytes(&lines[0], 44);
        let ghost h = split_on(ls[0], 44);
        let name_lab: Vec<u8> = vec![110u8, 97u8, 109u8, 101u8];
        let cat_lab: Vec<u8> = vec![99u8, 97u8, 116u8, 101u8, 103u8, 111u8, 114u8, 121u8];
        proof {
            assert(name_lab@ =~= name_label());
            assert(cat_lab@ =~= category_label());
            lemma_elem_bytes(&lines, 0);
            assert(lines@[0]@ == ls[0]);
        }
        let nc = match find_column(&header, &name_lab) {
            Some(nc) => nc,
            None => {
                return Err(LoadError::CatalogParseError);
            },
        };
        let cc = match find_column(&header, &cat_lab) {
            Some(cc) => cc,
            None => {
                return Err(LoadError::CatalogParseError);
            },
        };
        let mut rows: Vec<TagRow> = Vec::new();
        let mut k: usize = 1;
        proof {
            assert(rows.deep_view() =~= rows_of(text@).take(0));
        }
        while k < lines.len()
            invariant
                1 <= k <= lines@.len(),
                ls == logical_lines(text@),
                lines.deep_view() == ls,
                ls.len() == lines@.len(),
                ls.len() > 1,
                h == split_on(ls[0], 44),
                header.deep_view() == h,
                header@.len() == h.len(),
                nc < h.len() && col_of(h, name_label()) == nc as int,
                cc < h.len() && col_of(h, category_label()) == cc as int,
                rows@.len() == k - 1,
                rows.deep_view() == rows_of(text@).take(k - 1),
                forall|j: int|
                    1 <= j < k ==> {
                        let f = split_on(#[trigger] ls[j], 44);
                        f.len() == h.len() && parses_as_u8(f[col_of(h, category_label())])
                    },
            decreases lines.len() - k,
        {
            proof {
                lemma_elem_bytes(&lines, k as int);
                assert(lines@[k as int]@ == ls[k as int]);
            }
            let fields = split_bytes(&lines[k], 44);
            let ghost f = split_on(ls[k as int], 44);
            assert(fields.deep_view() == f);
            if fields.len() != header.len() {
                return Err(LoadError::CatalogParseError);
            }
            proof {
                lemma_elem_bytes(&fields, cc as int);
                lemma_elem_bytes(&fields, nc as int);
            }
            let cat = match parse_u8(&fields[cc]) {
                Some(cat) => cat,
                None => {
                    proof {
                        assert(fields@[cc as int]@ == f[cc as int]);
                        assert(!parses_as_u8(f[col_of(h, category_label())]));
                    }
                    return Err(LoadError::CatalogParseError);
                },
            };
            let name = fields[nc].clone();
            let ghost old_rows = rows.deep_view();
            rows.push(TagRow { name, category: cat });
            proof {
                assert(fields@[nc as int]@ == f[nc as int]);
                assert(fields@[cc as int]@ == f[cc as int]);
                assert(rows.deep_view() =~~= old_rows.push((f[nc as int], cat)));
                assert(rows_of(text@).take(k as int) =~= rows_of(text@).take(k - 1).push(
                    rows_of(text@)[k - 1],
                ));
                assert(rows_of(text@)[k - 1] == (f[col_of(h, name_label())],
                digits_val(f[col_of(h, category_label())]) as u8));
            }
            k = k + 1;
        }
        proof {
            assert(catalog_source_ok(text@));
            assert(rows.deep_view() =~= rows_of(text@));
        }
        let c = LabelCatalog::from_rows(&rows);
        Ok(c)
    }
}

} // verus!

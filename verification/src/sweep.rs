//! Parameter-grid sweeps: the checks on a `[sweep]` section, the
//! cartesian product of its axes, and the per-cell directory names and
//! summaries derived from the axis labels.

use vstd::prelude::*;
use crate::text::{chars_of, contains, contains_text, decimal, decimal_text, replace_all, replace_text};

verus! {

/// Product of the axis lengths.
pub open spec fn grid_size(lens: Seq<usize>) -> nat
    decreases lens.len(),
{
    if lens.len() == 0 {
        1
    } else {
        grid_size(lens.drop_last()) * (lens.last() as nat)
    }
}

/// The cells of the grid with axis lengths `lens`, in lexicographic
/// order (the last axis varies fastest). A cell lists one value index
/// per axis.
pub open spec fn grid_cells(lens: Seq<usize>) -> Seq<Seq<usize>>
    decreases lens.len(),
{
    if lens.len() == 0 {
        seq![Seq::<usize>::empty()]
    } else {
        let prev = grid_cells(lens.drop_last());
        let n = lens.last() as int;
        Seq::new(prev.len() * (lens.last() as nat), |j: int| prev[j / n].push((j % n) as usize))
    }
}

/// Enumerating the grid allocates no more than `usize` can count at any
/// stage.
pub open spec fn grid_fits(lens: Seq<usize>) -> bool {
    forall|k: int| 0 <= k <= lens.len() ==> #[trigger] grid_size(lens.take(k)) <= usize::MAX
}

/// The grid has `grid_size(lens)` cells; each cell has one index per axis,
/// below that axis' length.
pub proof fn lemma_grid_cells(lens: Seq<usize>)
    ensures
        grid_cells(lens).len() == grid_size(lens),
        forall|j: int|
            0 <= j < grid_cells(lens).len() ==> (#[trigger] grid_cells(lens)[j]).len() == lens.len(),
        forall|j: int, a: int|
            0 <= j < grid_cells(lens).len() && 0 <= a < lens.len() ==> #[trigger] grid_cells(
                lens,
            )[j][a] < lens[a],
    decreases lens.len(),
{
    if lens.len() > 0 {
        let init = lens.drop_last();
        lemma_grid_cells(init);
        let prev = grid_cells(init);
        let n = lens.last() as int;
        let cells = grid_cells(lens);
        assert forall|j: int| 0 <= j < cells.len() implies (#[trigger] cells[j]).len() == lens.len() by {
            assert(0 <= j / n < prev.len()) by (nonlinear_arith)
                requires 0 <= j < prev.len() * n, n > 0;
        }
        assert forall|j: int, a: int|
            0 <= j < cells.len() && 0 <= a < lens.len() implies #[trigger] cells[j][a] < lens[a] by {
            assert(0 <= j / n < prev.len()) by (nonlinear_arith)
                requires 0 <= j < prev.len() * n, n > 0;
            if a < lens.len() - 1 {
                assert(cells[j][a] == prev[j / n][a]);
                assert(init[a] == lens[a]);
            }
        }
    }
}

/// The grid is the product of the axis ranges, each cell once: cells are
/// pairwise distinct, every index tuple below the axis lengths is a cell,
/// and the last axis varies fastest (cell `j` ends in `j % lens.last()`).
pub proof fn lemma_grid_is_product(lens: Seq<usize>)
    ensures
        forall|i: int, j: int|
            0 <= i < j < grid_cells(lens).len() ==> #[trigger] grid_cells(lens)[i] != #[trigger] grid_cells(
                lens,
            )[j],
        forall|t: Seq<usize>|
            t.len() == lens.len() && (forall|a: int| 0 <= a < t.len() ==> #[trigger] t[a] < lens[a])
                ==> #[trigger] grid_cells(lens).contains(t),
        lens.len() > 0 ==> forall|j: int|
            0 <= j < grid_cells(lens).len() ==> #[trigger] grid_cells(lens)[j][lens.len() - 1] == j
                % (lens.last() as int),
    decreases lens.len(),
{
    lemma_grid_cells(lens);
    if lens.len() == 0 {
        assert forall|t: Seq<usize>|
            t.len() == lens.len() && (forall|a: int| 0 <= a < t.len() ==> #[trigger] t[a] < lens[a])
                implies #[trigger] grid_cells(lens).contains(t) by {
            assert(t =~= Seq::<usize>::empty());
            assert(grid_cells(lens)[0] == t);
        }
    } else {
        let init = lens.drop_last();
        lemma_grid_is_product(init);
        lemma_grid_cells(init);
        let prev = grid_cells(init);
        let n = lens.last() as int;
        let cells = grid_cells(lens);
        assert forall|i: int, j: int| 0 <= i < j < cells.len() implies #[trigger] cells[i]
            != #[trigger] cells[j] by {
            assert(0 <= i / n < prev.len() && 0 <= j / n < prev.len()) by (nonlinear_arith)
                requires 0 <= i < j, j < prev.len() * n, n > 0;
            assert(cells[i] == prev[i / n].push((i % n) as usize));
            assert(cells[j] == prev[j / n].push((j % n) as usize));
            if i / n == j / n {
                assert(i % n != j % n) by (nonlinear_arith)
                    requires i / n == j / n, i != j, n > 0;
                assert(0 <= i % n < n && 0 <= j % n < n) by (nonlinear_arith) requires n > 0;
                assert(cells[i][init.len() as int] != cells[j][init.len() as int]);
            } else {
                assert(cells[i].drop_last() =~= prev[i / n]);
                assert(cells[j].drop_last() =~= prev[j / n]);
                if i / n < j / n {
                    assert(prev[i / n] != prev[j / n]);
                } else {
                    assert(prev[j / n] != prev[i / n]);
                }
            }
        }
        assert forall|t: Seq<usize>|
            t.len() == lens.len() && (forall|a: int| 0 <= a < t.len() ==> #[trigger] t[a] < lens[a])
                implies #[trigger] cells.contains(t) by {
            let ti = t.drop_last();
            assert forall|a: int| 0 <= a < ti.len() implies #[trigger] ti[a] < init[a] by {
                assert(t[a] < lens[a]);
            }
            assert(prev.contains(ti));
            let i = choose|i: int| 0 <= i < prev.len() && prev[i] == ti;
            let x = t.last() as int;
            assert(t[t.len() - 1] < lens[lens.len() - 1]);
            let j = i * n + x;
            assert(0 <= j < prev.len() * n) by (nonlinear_arith)
                requires 0 <= i < prev.len(), 0 <= x < n, j == i * n + x;
            vstd::arithmetic::div_mod::lemma_fundamental_div_mod_converse(j, n, i, x);
            assert(cells[j] =~= t);
        }
        assert forall|j: int| 0 <= j < cells.len() implies #[trigger] cells[j][lens.len() - 1] == j
            % (lens.last() as int) by {
            assert(0 <= j / n < prev.len()) by (nonlinear_arith)
                requires 0 <= j < prev.len() * n, n > 0;
            assert(cells[j] == prev[j / n].push((j % n) as usize));
            assert(0 <= j % n < n) by (nonlinear_arith) requires n > 0;
        }
    }
}

/// Cartesian product of `0..lens[0]`, `0..lens[1]`, ...: every cell of the
/// grid as a list of per-axis value indices, the last axis varying fastest.
/// No axes yield the single empty cell.
pub fn cartesian_product(lens: Vec<usize>) -> (r: Vec<Vec<usize>>)
    requires
        grid_fits(lens@),
    ensures
        r@.map_values(|v: Vec<usize>| v@) == grid_cells(lens@),
{
    let mut out: Vec<Vec<usize>> = Vec::new();
    out.push(Vec::new());
    let mut idx: usize = 0;
    assert(lens@.take(0) =~= Seq::<usize>::empty());
    while idx < lens.len()
        invariant
            idx <= lens.len(),
            grid_fits(lens@),
            out@.map_values(|v: Vec<usize>| v@) == grid_cells(lens@.take(idx as int)),
        decreases lens.len() - idx,
    {
        let n = lens[idx];
        let ghost prev = grid_cells(lens@.take(idx as int));
        proof {
            assert(lens@.take(idx + 1).drop_last() =~= lens@.take(idx as int));
            assert(grid_size(lens@.take(idx + 1)) <= usize::MAX);
            lemma_grid_cells(lens@.take(idx as int));
            lemma_grid_cells(lens@.take(idx + 1));
        }
        let cap = out.len() * n;
        let mut next: Vec<Vec<usize>> = Vec::with_capacity(cap);
        let mut p: usize = 0;
        while p < out.len()
            invariant
                prev.len() == out@.len(),
                out@.map_values(|v: Vec<usize>| v@) == prev,
                p <= out.len(),
                out.len() * n <= usize::MAX,
                next@.len() == p * n,
                forall|j: int|
                    0 <= j < next@.len() ==> (#[trigger] next@[j])@ == prev[j / (n as int)].push(
                        (j % (n as int)) as usize,
                    ),
            decreases out.len() - p,
        {
            let mut i: usize = 0;
            while i < n
                invariant
                    prev.len() == out@.len(),
                    out@.map_values(|v: Vec<usize>| v@) == prev,
                    p < out.len(),
                    i <= n,
                    out.len() * n <= usize::MAX,
                    next@.len() == p * n + i,
                    forall|j: int|
                        0 <= j < next@.len() ==> (#[trigger] next@[j])@ == prev[j / (n as int)].push(
                            (j % (n as int)) as usize,
                        ),
                decreases n - i,
            {
                let mut e = out[p].clone();
                e.push(i);
                proof {
                    let j = p * n + i;
                    assert(j / (n as int) == p) by (nonlinear_arith)
                        requires j == p * n + i, i < n;
                    assert(j % (n as int) == i) by (nonlinear_arith)
                        requires j == p * n + i, i < n;
                    assert(out@[p as int]@ == prev[p as int]);
                    assert(j < out.len() * n) by (nonlinear_arith)
                        requires j == p * n + i, i < n, p < out.len();
                }
                next.push(e);
                i = i + 1;
            }
            proof {
                assert((p + 1) * n == p * n + n) by (nonlinear_arith);
            }
            p = p + 1;
        }
        out = next;
        proof {
            assert(out@.map_values(|v: Vec<usize>| v@) =~= grid_cells(lens@.take(idx + 1)));
        }
        idx = idx + 1;
    }
    assert(lens@.take(lens.len() as int) =~= lens@);
    out
}

/// Whether every stage of enumerating the grid with axis lengths `lens`
/// stays countable in `usize` (the condition `cartesian_product` needs).
pub fn grid_size_fits(lens: &Vec<usize>) -> (b: bool)
    ensures
        b == grid_fits(lens@),
{
    let mut acc: usize = 1;
    let mut k: usize = 0;
    assert(lens@.take(0) =~= Seq::<usize>::empty());
    while k < lens.len()
        invariant
            k <= lens.len(),
            acc == grid_size(lens@.take(k as int)),
            forall|j: int| 0 <= j <= k ==> #[trigger] grid_size(lens@.take(j)) <= usize::MAX,
        decreases lens.len() - k,
    {
        assert(lens@.take(k + 1).drop_last() =~= lens@.take(k as int));
        match acc.checked_mul(lens[k]) {
            Some(next) => {
                acc = next;
                k = k + 1;
            },
            None => {
                assert(!(grid_size(lens@.take(k + 1)) <= usize::MAX));
                return false;
            },
        }
    }
    assert(lens@.take(lens.len() as int) =~= lens@);
    assert forall|j: int| 0 <= j <= lens@.len() implies #[trigger] grid_size(lens@.take(j))
        <= usize::MAX by {}
    true
}

/// One value of a sweep axis, in the two renderings the sweep runner uses.
#[derive(Clone, Debug)]
pub struct AxisValue {
    /// The value as `{}` prints it (the shortest decimal that reads back
    /// to the same number); used in cell summaries.
    pub text: String,
    /// The value printed with six decimals (`{:.6}`); used for directory
    /// names.
    pub fixed: String,
}

/// Single axis of a sweep: `key` is a dotted config path, `values` the
/// override list, `label` the optional short name used in templates.
#[derive(Clone, Debug)]
pub struct SweepAxis {
    /// Dotted config key (e.g. `"hamiltonian.on_site_interaction"`).
    pub key: String,
    /// Short name for templates; defaults to the key's last segment.
    pub label: Option<String>,
    /// Values to substitute in turn.
    pub values: Vec<AxisValue>,
}

/// Parameter-grid sweep specification.
#[derive(Clone, Debug)]
pub struct Sweep {
    /// Axes (cartesian product).
    pub axes: Vec<SweepAxis>,
    /// Subdirectory template for each cell, with `{label}` placeholders.
    pub subdir_template: String,
    /// Number of parallel workers.
    pub parallelism: usize,
}

/// Why a sweep cannot run.
#[derive(Clone, Debug)]
pub enum SweepError {
    /// The configuration has no `[sweep]` section.
    MissingSection,
    /// `[sweep].axes` is empty.
    EmptyAxes,
    /// Only sequential sweeps (`parallelism = 1`) are supported.
    UnsupportedParallelism { parallelism: usize },
    /// The subdirectory template lacks the placeholder of an axis label.
    UnreferencedLabel { template: String, label: String },
}

/// The part of a dotted key after its last `.` (the whole key when it
/// has none).
pub open spec fn last_segment(key: Seq<char>) -> Seq<char>
    decreases key.len(),
{
    if key.len() == 0 || key.last() == '.' {
        Seq::empty()
    } else {
        last_segment(key.drop_last()).push(key.last())
    }
}

impl SweepAxis {
    /// The name of this axis in templates and summaries: its label, or
    /// else the last segment of its key.
    pub open spec fn label_spec(&self) -> Seq<char> {
        match self.label {
            Some(l) => l@,
            None => last_segment(self.key@),
        }
    }

    /// The label that names this axis in templates and summaries: the
    /// explicit label, or else the last dotted segment of the key.
    pub fn effective_label(&self) -> (r: String)
        ensures
            r@ == self.label_spec(),
    {
        match &self.label {
            Some(l) => l.clone(),
            None => {
                let kv = chars_of(self.key.as_str());
                let n = kv.len();
                let mut start: usize = n;
                assert(kv@.take(n as int) =~= kv@);
                assert(kv@.subrange(n as int, n as int) =~= Seq::<char>::empty());
                while start > 0 && kv[start - 1] != '.'
                    invariant
                        kv@ == self.key@,
                        n == kv@.len(),
                        start <= n,
                        last_segment(kv@) == last_segment(kv@.take(start as int)) + kv@.subrange(
                            start as int,
                            n as int,
                        ),
                    decreases start,
                {
                    let ghost t = kv@.take(start as int);
                    assert(t.drop_last() =~= kv@.take(start - 1));
                    assert(kv@.subrange(start - 1, n as int) =~= seq![t.last()] + kv@.subrange(
                        start as int,
                        n as int,
                    ));
                    assert(last_segment(t.drop_last()).push(t.last()) + kv@.subrange(
                        start as int,
                        n as int,
                    ) =~= last_segment(t.drop_last()) + kv@.subrange(start - 1, n as int));
                    start = start - 1;
                }
                assert(last_segment(kv@.take(start as int)) =~= Seq::<char>::empty());
                assert(last_segment(kv@) =~= kv@.subrange(start as int, n as int));
                String::from_str(self.key.as_str().substring_char(start, n))
            },
        }
    }
}

/// The template placeholder of a label: the label in braces.
pub open spec fn placeholder(label: Seq<char>) -> Seq<char> {
    seq!['{'] + label + seq!['}']
}

fn placeholder_text(label: &String) -> (r: String)
    ensures
        r@ == placeholder(label@),
{
    proof {
        reveal_strlit("{");
        reveal_strlit("}");
    }
    let mut p = String::from_str("{");
    p.append(label.as_str());
    p.append("}");
    p
}

/// `s` without its trailing run of `c`.
pub open spec fn trim_end(s: Seq<char>, c: char) -> Seq<char>
    decreases s.len(),
{
    if s.len() > 0 && s.last() == c {
        trim_end(s.drop_last(), c)
    } else {
        s
    }
}

/// The filesystem-safe spelling of one character: `-` becomes `m`,
/// `.` becomes `p`.
pub open spec fn safe_char(c: char) -> Seq<char> {
    if c == '-' {
        seq!['m']
    } else if c == '.' {
        seq!['p']
    } else {
        seq![c]
    }
}

/// `s` with every character spelled filesystem-safe.
pub open spec fn safe_chars(s: Seq<char>) -> Seq<char>
    decreases s.len(),
{
    if s.len() == 0 {
        s
    } else {
        safe_chars(s.drop_last()) + safe_char(s.last())
    }
}

/// Directory-name form of a six-decimal rendering: trailing zeros, then
/// a trailing point, are dropped; `-` becomes `m` and `.` becomes `p`.
pub open spec fn filesystem_safe(fixed: Seq<char>) -> Seq<char> {
    safe_chars(trim_end(trim_end(fixed, '0'), '.'))
}

proof fn lemma_safe_chars_unmarked(s: Seq<char>)
    ensures
        forall|i: int|
            0 <= i < safe_chars(s).len() ==> #[trigger] safe_chars(s)[i] != '-' && safe_chars(s)[i]
                != '.',
    decreases s.len(),
{
    if s.len() > 0 {
        lemma_safe_chars_unmarked(s.drop_last());
        let a = safe_chars(s.drop_last());
        let b = safe_char(s.last());
        assert forall|i: int| 0 <= i < safe_chars(s).len() implies #[trigger] safe_chars(s)[i] != '-'
            && safe_chars(s)[i] != '.' by {
            if i < a.len() {
                assert(safe_chars(s)[i] == a[i]);
            } else {
                assert(safe_chars(s)[i] == b[i - a.len()]);
            }
        }
    }
}

/// Directory names built from axis values are filesystem-safe: they
/// contain neither `-` nor `.`.
pub proof fn lemma_filesystem_safe_has_no_marks(fixed: Seq<char>)
    ensures
        forall|i: int|
            0 <= i < filesystem_safe(fixed).len() ==> #[trigger] filesystem_safe(fixed)[i] != '-'
                && filesystem_safe(fixed)[i] != '.',
{
    lemma_safe_chars_unmarked(trim_end(trim_end(fixed, '0'), '.'));
}

proof fn lemma_trim_end_prefix(s: Seq<char>, c: char)
    ensures
        trim_end(s, c).len() <= s.len(),
        trim_end(s, c) == s.subrange(0, trim_end(s, c).len() as int),
    decreases s.len(),
{
    if s.len() > 0 && s.last() == c {
        lemma_trim_end_prefix(s.drop_last(), c);
        assert(trim_end(s, c) =~= s.subrange(0, trim_end(s, c).len() as int));
    } else {
        assert(s =~= s.subrange(0, s.len() as int));
    }
}

proof fn lemma_trim_end_absent(s: Seq<char>, c: char)
    requires
        forall|i: int| 0 <= i < s.len() ==> s[i] != c,
    ensures
        trim_end(s, c) == s,
{
    if s.len() > 0 {
        assert(s.last() != c);
    }
}

proof fn lemma_trim_end_concat(x: Seq<char>, f: Seq<char>, c: char)
    ensures
        trim_end(x + f, c) == (if trim_end(f, c).len() == 0 {
            trim_end(x, c)
        } else {
            x + trim_end(f, c)
        }),
    decreases f.len(),
{
    if f.len() == 0 {
        assert(x + f =~= x);
    } else {
        assert((x + f).last() == f.last());
        if f.last() == c {
            assert((x + f).drop_last() =~= x + f.drop_last());
            lemma_trim_end_concat(x, f.drop_last(), c);
        }
    }
}

proof fn lemma_safe_chars_concat(x: Seq<char>, y: Seq<char>)
    ensures
        safe_chars(x + y) == safe_chars(x) + safe_chars(y),
    decreases y.len(),
{
    if y.len() == 0 {
        assert(x + y =~= x);
        assert(safe_chars(x) + safe_chars(y) =~= safe_chars(x));
    } else {
        assert((x + y).drop_last() =~= x + y.drop_last());
        assert((x + y).last() == y.last());
        lemma_safe_chars_concat(x, y.drop_last());
        assert(safe_chars(x) + safe_chars(y) =~= safe_chars(x) + safe_chars(y.drop_last()) + safe_char(
            y.last(),
        ));
    }
}

proof fn lemma_safe_chars_plain(s: Seq<char>)
    requires
        forall|i: int| 0 <= i < s.len() ==> s[i] != '-' && s[i] != '.',
    ensures
        safe_chars(s) == s,
    decreases s.len(),
{
    if s.len() > 0 {
        lemma_safe_chars_plain(s.drop_last());
        assert(s.drop_last() + seq![s.last()] =~= s);
    }
}

/// Directory-name form of a value printed as `integer part . fraction`:
/// the integer part is kept whole (with `-` spelled `m`), the fraction
/// loses its trailing zeros, and the point (spelled `p`) is kept exactly
/// when some fraction digit remains. So `10.000000` gives `10`,
/// `-0.100000` gives `m0p1`, and distinct integers give distinct names.
pub proof fn lemma_filesystem_safe_fixed_point(ip: Seq<char>, fp: Seq<char>)
    requires
        forall|i: int| 0 <= i < ip.len() ==> ip[i] != '.',
        forall|i: int| 0 <= i < fp.len() ==> fp[i] != '.' && fp[i] != '-',
    ensures
        filesystem_safe(ip + seq!['.'] + fp) == safe_chars(ip) + (if trim_end(fp, '0').len() == 0 {
            Seq::<char>::empty()
        } else {
            seq!['p'] + trim_end(fp, '0')
        }),
{
    let x = ip + seq!['.'];
    let z = trim_end(fp, '0');
    lemma_trim_end_concat(x, fp, '0');
    assert(x.last() == '.');
    assert(trim_end(x, '0') == x);
    lemma_trim_end_prefix(fp, '0');
    assert forall|i: int| 0 <= i < z.len() implies z[i] != '.' && z[i] != '-' by {
        assert(z[i] == fp[i]);
    }
    assert(x.drop_last() =~= ip);
    lemma_trim_end_absent(ip, '.');
    if z.len() == 0 {
        assert(trim_end(x, '.') == trim_end(ip, '.'));
        assert(safe_chars(ip) + Seq::<char>::empty() =~= safe_chars(ip));
    } else {
        lemma_trim_end_absent(z, '.');
        lemma_trim_end_concat(x, z, '.');
        lemma_safe_chars_concat(x, z);
        lemma_safe_chars_concat(ip, seq!['.']);
        assert(seq!['.'].drop_last() =~= Seq::<char>::empty());
        assert(safe_chars(seq!['.']) =~= seq!['p']);
        lemma_safe_chars_plain(z);
        assert(safe_chars(ip) + seq!['p'] + z =~= safe_chars(ip) + (seq!['p'] + z));
    }
}

/// Each axis' placeholder is replaced by the directory-name form of the
/// six-decimal rendering (`fixed`) of the value the cell picks for it,
/// after the earlier axes; a missing placeholder stops the rendering with
/// that axis' label.
pub proof fn lemma_render_substitutes_fixed_value(
    template: Seq<char>,
    axes: Seq<SweepAxis>,
    cell: Seq<usize>,
    k: nat,
)
    ensures
        render_spec(template, axes, cell, k + 1) == (match render_spec(template, axes, cell, k) {
            Err(l) => Err(l),
            Ok(s) => if contains(s, seq!['{'] + axes[k as int].label_spec() + seq!['}']) {
                Ok(
                    replace_all(
                        s,
                        seq!['{'] + axes[k as int].label_spec() + seq!['}'],
                        filesystem_safe(axes[k as int].values@[cell[k as int] as int].fixed@),
                    ),
                )
            } else {
                Err(axes[k as int].label_spec())
            },
        }),
        render_spec(template, axes, cell, 0) == Ok::<Seq<char>, Seq<char>>(template),
{
}

/// Length of `s.take(k)` once its trailing run of `c` is removed.
fn trimmed_len(s: &Vec<char>, k: usize, c: char) -> (r: usize)
    requires
        k <= s@.len(),
    ensures
        r <= k,
        s@.take(r as int) == trim_end(s@.take(k as int), c),
{
    let mut e: usize = k;
    while e > 0 && s[e - 1] == c
        invariant
            e <= k <= s@.len(),
            trim_end(s@.take(e as int), c) == trim_end(s@.take(k as int), c),
        decreases e,
    {
        assert(s@.take(e as int).drop_last() =~= s@.take(e - 1));
        e = e - 1;
    }
    e
}

/// Filesystem-safe rendering of an axis value from its six-decimal form
/// (`{:.6}`): trailing zeros and then a trailing point are trimmed,
/// `-` becomes `m` and `.` becomes `p` (so `-0.100000` gives `m0p1`).
pub fn format_axis_value(fixed: &str) -> (r: String)
    ensures
        r@ == filesystem_safe(fixed@),
{
    let v = chars_of(fixed);
    let k1 = trimmed_len(&v, v.len(), '0');
    let k2 = trimmed_len(&v, k1, '.');
    assert(v@.take(v@.len() as int) =~= v@);
    assert(v@.take(k1 as int).take(k2 as int) =~= v@.take(k2 as int));
    let mut out = String::new();
    let mut i: usize = 0;
    assert(v@.take(0) =~= Seq::<char>::empty());
    while i < k2
        invariant
            v@ == fixed@,
            k2 <= v@.len(),
            i <= k2,
            out@ == safe_chars(v@.take(i as int)),
        decreases k2 - i,
    {
        let c = v[i];
        let ghost before = out@;
        assert(v@.take(i + 1).drop_last() =~= v@.take(i as int));
        assert(v@.take(i + 1).last() == c);
        assert(safe_chars(v@.take(i + 1)) == before + safe_char(c));
        if c == '-' {
            out.append("m");
            proof {
                reveal_strlit("m");
            }
        } else if c == '.' {
            out.append("p");
            proof {
                reveal_strlit("p");
            }
        } else {
            out.append(fixed.substring_char(i, i + 1));
            assert(fixed@.subrange(i as int, i + 1) =~= seq![c]);
        }
        assert(out@ =~= before + safe_char(c));
        i = i + 1;
    }
    out
}

/// Every cell index names an axis and one of its values.
pub open spec fn cell_in_range(axes: Seq<SweepAxis>, cell: Seq<usize>) -> bool {
    &&& cell.len() <= axes.len()
    &&& forall|a: int| 0 <= a < cell.len() ==> #[trigger] cell[a] < axes[a].values@.len()
}

/// Directory-name text of value `idx` of `axis`.
pub open spec fn value_name(axis: SweepAxis, idx: usize) -> Seq<char> {
    filesystem_safe(axis.values@[idx as int].fixed@)
}

/// The template after substituting the first `k` axes of `cell`, in axis
/// order; `Err` carries the label of the first axis whose placeholder no
/// longer occurs in the text.
pub open spec fn render_spec(template: Seq<char>, axes: Seq<SweepAxis>, cell: Seq<usize>, k: nat) -> Result<
    Seq<char>,
    Seq<char>,
>
    decreases k,
{
    if k == 0 {
        Ok(template)
    } else {
        match render_spec(template, axes, cell, (k - 1) as nat) {
            Ok(s) => {
                let axis = axes[k - 1];
                let ph = placeholder(axis.label_spec());
                if contains(s, ph) {
                    Ok(replace_all(s, ph, value_name(axis, cell[k - 1])))
                } else {
                    Err(axis.label_spec())
                }
            },
            Err(l) => Err(l),
        }
    }
}

proof fn lemma_render_err_sticks(template: Seq<char>, axes: Seq<SweepAxis>, cell: Seq<usize>, k: nat, j: nat)
    requires
        k <= j,
        render_spec(template, axes, cell, k) is Err,
    ensures
        render_spec(template, axes, cell, j) == render_spec(template, axes, cell, k),
    decreases j - k,
{
    if k < j {
        lemma_render_err_sticks(template, axes, cell, k, (j - 1) as nat);
    }
}

/// The subdirectory of one sweep cell: each axis' `{label}` placeholder
/// in the template is replaced by the filesystem-safe value the cell
/// picks, axis by axis; an axis whose placeholder does not occur is an
/// error.
pub fn render_subdir(template: &str, axes: &[SweepAxis], cell: &[usize]) -> (r: Result<String, SweepError>)
    requires
        cell_in_range(axes@, cell@),
    ensures
        match render_spec(template@, axes@, cell@, cell@.len()) {
            Ok(s) => r matches Ok(out) && out@ == s,
            Err(l) => r matches Err(SweepError::UnreferencedLabel { template: t, label }) && t@
                == template@ && label@ == l,
        },
{
    let mut out = String::from_str(template);
    let mut a: usize = 0;
    while a < cell.len()
        invariant
            a <= cell@.len(),
            cell_in_range(axes@, cell@),
            render_spec(template@, axes@, cell@, a as nat) == Ok::<Seq<char>, Seq<char>>(out@),
        decreases cell.len() - a,
    {
        let axis = &axes[a];
        let value_idx = cell[a];
        let label = axis.effective_label();
        let ph = placeholder_text(&label);
        let replacement = format_axis_value(axis.values[value_idx].fixed.as_str());
        if !contains_text(out.as_str(), ph.as_str()) {
            proof {
                lemma_render_err_sticks(template@, axes@, cell@, (a + 1) as nat, cell@.len());
            }
            return Err(SweepError::UnreferencedLabel { template: String::from_str(template), label });
        }
        out = replace_text(out.as_str(), ph.as_str(), replacement.as_str());
        a = a + 1;
    }
    Ok(out)
}

/// `label=value` for the value `idx` of `axis`, the value as `{}` prints it.
pub open spec fn summary_entry(axis: SweepAxis, idx: usize) -> Seq<char> {
    axis.label_spec() + seq!['='] + axis.values@[idx as int].text@
}

/// The first `k` entries of a cell summary, separated by `", "`.
pub open spec fn summary_spec(axes: Seq<SweepAxis>, cell: Seq<usize>, k: nat) -> Seq<char>
    decreases k,
{
    if k == 0 {
        Seq::empty()
    } else if k == 1 {
        summary_entry(axes[0], cell[0])
    } else {
        summary_spec(axes, cell, (k - 1) as nat) + seq![',', ' '] + summary_entry(
            axes[k - 1],
            cell[k - 1],
        )
    }
}

/// One-line description of a cell: `label=value` per axis, joined by
/// `", "`.
pub fn cell_summary(axes: &[SweepAxis], cell: &[usize]) -> (r: String)
    requires
        cell_in_range(axes@, cell@),
    ensures
        r@ == summary_spec(axes@, cell@, cell@.len()),
{
    let mut out = String::new();
    let mut i: usize = 0;
    while i < cell.len()
        invariant
            i <= cell@.len(),
            cell_in_range(axes@, cell@),
            out@ == summary_spec(axes@, cell@, i as nat),
        decreases cell.len() - i,
    {
        let ghost before = out@;
        let ghost entry = summary_entry(axes@[i as int], cell@[i as int]);
        if i > 0 {
            out.append(", ");
            proof {
                reveal_strlit(", ");
            }
        }
        let ghost sep = out@;
        let axis = &axes[i];
        let label = axis.effective_label();
        out.append(label.as_str());
        out.append("=");
        proof {
            reveal_strlit("=");
        }
        let idx = cell[i];
        out.append(axis.values[idx].text.as_str());
        assert(out@ =~= sep + entry);
        proof {
            if i == 0 {
                assert(sep =~= Seq::<char>::empty());
                assert(out@ =~= entry);
            } else {
                assert(sep =~= before + seq![',', ' ']);
            }
        }
        i = i + 1;
    }
    out
}

/// The lengths of the axes, in order.
pub fn axis_lengths(axes: &[SweepAxis]) -> (r: Vec<usize>)
    ensures
        r@.len() == axes@.len(),
        forall|a: int| 0 <= a < axes@.len() ==> #[trigger] r@[a] == axes@[a].values@.len(),
{
    let mut out: Vec<usize> = Vec::new();
    let mut i: usize = 0;
    while i < axes.len()
        invariant
            i <= axes@.len(),
            out@.len() == i,
            forall|a: int| 0 <= a < i ==> #[trigger] out@[a] == axes@[a].values@.len(),
        decreases axes.len() - i,
    {
        out.push(axes[i].values.len());
        i = i + 1;
    }
    out
}

/// What the sweep runner requires of the `[sweep]` section.
pub open spec fn sweep_check_spec(sweep: Option<Sweep>) -> Result<(), SweepError> {
    match sweep {
        None => Err(SweepError::MissingSection),
        Some(s) => if s.axes@.len() == 0 {
            Err(SweepError::EmptyAxes)
        } else if s.parallelism != 1 {
            Err(SweepError::UnsupportedParallelism { parallelism: s.parallelism })
        } else {
            Ok(())
        },
    }
}

/// Checks a configuration's `[sweep]` section before a sweep: it must be
/// present, have at least one axis, and ask for sequential execution.
pub fn check_sweep(sweep: Option<&Sweep>) -> (r: Result<(), SweepError>)
    ensures
        r == sweep_check_spec(match sweep { Some(s) => Some(*s), None => None }),
{
    match sweep {
        None => Err(SweepError::MissingSection),
        Some(s) => {
            if s.axes.len() == 0 {
                Err(SweepError::EmptyAxes)
            } else if s.parallelism != 1 {
                Err(SweepError::UnsupportedParallelism { parallelism: s.parallelism })
            } else {
                Ok(())
            }
        },
    }
}

impl SweepError {
    /// The text of the error, as the sweep runner reports it.
    pub open spec fn message_spec(&self) -> Seq<char> {
        match self {
            SweepError::MissingSection => "[sweep] section missing \u{2014} scrapbox sweep requires it"@,
            SweepError::EmptyAxes => "[sweep].axes must be non-empty"@,
            SweepError::UnsupportedParallelism { parallelism } => "[sweep].parallelism = "@
                + decimal(*parallelism as nat) + " not yet supported (only 1 \u{2014} sequential)"@,
            SweepError::UnreferencedLabel { template, label } => "subdir_template "@ + template@
                + " does not reference axis label "@ + label@,
        }
    }

    /// The text of the error, as the sweep runner reports it.
    pub fn message(&self) -> (r: String)
        ensures
            r@ == self.message_spec(),
    {
        match self {
            SweepError::MissingSection => String::from_str(
                "[sweep] section missing \u{2014} scrapbox sweep requires it",
            ),
            SweepError::EmptyAxes => String::from_str("[sweep].axes must be non-empty"),
            SweepError::UnsupportedParallelism { parallelism } => {
                let mut s = String::from_str("[sweep].parallelism = ");
                let d = decimal_text(*parallelism);
                s.append(d.as_str());
                s.append(" not yet supported (only 1 \u{2014} sequential)");
                s
            },
            SweepError::UnreferencedLabel { template, label } => {
                let mut s = String::from_str("subdir_template ");
                s.append(template.as_str());
                s.append(" does not reference axis label ");
                s.append(label.as_str());
                s
            },
        }
    }
}

} // verus!

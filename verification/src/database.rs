//! The persisted duration store: header validation, entry scanning, and the
//! open-entry lifecycle, modelled over the full file text.
use vstd::prelude::*;
use crate::categories::UniqueCategories;
use crate::encoding::{
    all_header_safe, count_ch, dec_val, entry_line, entry_shaped, find_ch, fmt_u64, header_safe,
    header_str, is_dec_u64, is_subsequence, lemma_count_push, lemma_dec_digits_ok,
    lemma_entry_round_trip, lemma_find_ch_at, lemma_find_ch_props, lemma_join_tabbed,
    lemma_sorted_from_adjacent, lemma_split_join, lemma_split_on_keeps_absent,
    lemma_split_on_len, lemma_split_on_no_sep_inside, lemma_split_push_other,
    lemma_split_push_sep, lemma_tabbed_nums_push, lex_lt, parse_dec_u64, parse_entry,
    sorted_strict, split_fields, split_on, str_lex_lt, tabbed_nums, time_marker, chars_string,
};

verus! {

/// Why a store could not be opened or read.
#[derive(Clone, Copy, PartialEq, Eq, Structural, Debug)]
pub enum StoreError {
    /// The file is empty or its first line has no terminator.
    MissingHeader,
    /// The first header field is not the fixed time column marker.
    MissingTimeMarker,
    /// The header categories are not strictly sorted (or hold a duplicate).
    UnsortedCategories,
    /// A category name to be written holds a tab or a newline.
    InvalidCategoryName,
    /// The required categories are not an order-preserving subset of the
    /// store's categories.
    SchemaMismatch,
    /// A sealed entry line has the wrong number of fields.
    WrongFieldCount,
    /// The open entry line cannot be parsed.
    MalformedEntry,
}

// ---------- the scanned structure of an existing file ----------

/// The store body: everything after the header line.
pub open spec fn body_of(text: Seq<char>) -> Seq<char> {
    text.skip(find_ch(text, '\n') + 1)
}

/// The header fields: the first line split on tabs.
pub open spec fn header_fields_of(text: Seq<char>) -> Seq<Seq<char>> {
    split_on(text.take(find_ch(text, '\n')), '\t')
}

/// The category names that the header declares.
pub open spec fn cats_of(text: Seq<char>) -> Seq<Seq<char>> {
    header_fields_of(text).drop_first()
}

/// The body's lines, split on newlines.
pub open spec fn body_parts(body: Seq<char>) -> Seq<Seq<char>> {
    split_on(body, '\n')
}

/// The non-final lines, whose shape entry scanning checks.
pub open spec fn checked_lines(body: Seq<char>) -> Seq<Seq<char>> {
    let p = body_parts(body);
    if p.last().len() > 0 {
        p.drop_last()
    } else if p.len() >= 2 {
        p.take(p.len() - 2)
    } else {
        Seq::<Seq<char>>::empty()
    }
}

/// The open entry: the last line of the body, with its terminator if any.
pub open spec fn open_region_of(body: Seq<char>) -> Seq<char> {
    let p = body_parts(body);
    if p.last().len() > 0 {
        p.last()
    } else if p.len() >= 2 {
        p[p.len() - 2] + seq!['\n']
    } else {
        Seq::<char>::empty()
    }
}

/// Every non-final line has exactly one field per category plus the time
/// column.
pub open spec fn scan_ok(body: Seq<char>, ncats: nat) -> bool {
    forall|k: int|
        0 <= k < checked_lines(body).len() ==> split_on(
            #[trigger] checked_lines(body)[k],
            '\t',
        ).len() == ncats + 1
}

// ---------- the store ----------

/// The persisted store: the file text, the categories its header declares,
/// and the offset where the open (still mutable) entry begins.
pub struct Database {
    pub categories: UniqueCategories,
    pub content: Vec<char>,
    pub open_offset: usize,
    pub locked: Ghost<Seq<Seq<char>>>,
}

impl Database {
    pub open spec fn cats_dv(self) -> Seq<Seq<char>> {
        self.categories.dv()
    }

    pub open spec fn text(self) -> Seq<char> {
        self.content@
    }

    /// The byte range of the open entry: everything at and after the open
    /// offset.
    pub open spec fn open_region(self) -> Seq<char> {
        self.content@.skip(self.open_offset as int)
    }

    /// Well-formed: sorted unique categories, a proper header, sealed entry
    /// lines of the right shape before the open offset, and no stray
    /// newline inside the open region.
    pub open spec fn wf(self) -> bool {
        &&& sorted_strict(self.cats_dv())
        &&& all_header_safe(self.cats_dv())
        &&& self.open_offset <= self.content@.len()
        &&& self.content@.take(self.open_offset as int) == header_str(self.cats_dv())
            + self.locked@.flatten()
        &&& forall|k: int|
            0 <= k < self.locked@.len() ==> entry_shaped(
                #[trigger] self.locked@[k],
                self.cats_dv().len(),
            )
        &&& forall|i: int|
            self.open_offset <= i < self.content@.len() - 1 ==> self.content@[i] != '\n'
    }

    pub fn categories(&self) -> (r: &UniqueCategories)
        ensures
            r.dv() == self.cats_dv(),
    {
        &self.categories
    }

    /// Serializes one entry line and overwrites the file from the open
    /// offset: the only mutation path for an open entry.
    pub fn rewrite_last_entry(&mut self, window_start: u64, durations: &Vec<u64>)
        requires
            old(self).wf(),
            durations@.len() == old(self).cats_dv().len(),
        ensures
            final(self).wf(),
            final(self).categories == old(self).categories,
            final(self).open_offset == old(self).open_offset,
            final(self).locked == old(self).locked,
            final(self).content@ == old(self).content@.take(old(self).open_offset as int)
                + entry_line(window_start, durations@),
            final(self).open_region() == entry_line(window_start, durations@),
    {
        let ghost pre = self.content@.take(self.open_offset as int);
        self.content.truncate(self.open_offset);
        assert(self.content@ =~= pre);
        let mut digits = fmt_u64(window_start);
        proof {
            lemma_dec_digits_ok(window_start as nat);
        }
        self.content.append(&mut digits);
        let ghost dt = crate::encoding::dec_digits(window_start as nat);
        assert(self.content@ =~= pre + dt);
        let mut k: usize = 0;
        assert(durations@.take(0) =~= Seq::<u64>::empty());
        assert(tabbed_nums(Seq::<u64>::empty()) =~= Seq::<char>::empty());
        assert(self.content@ =~= pre + dt + tabbed_nums(durations@.take(0)));
        while k < durations.len()
            invariant
                k <= durations@.len(),
                self.categories == old(self).categories,
                self.open_offset == old(self).open_offset,
                self.locked == old(self).locked,
                pre == old(self).content@.take(old(self).open_offset as int),
                dt == crate::encoding::dec_digits(window_start as nat),
                self.content@ == pre + dt + tabbed_nums(durations@.take(k as int)),
            decreases durations@.len() - k,
        {
            self.content.push('\t');
            let mut dd = fmt_u64(durations[k]);
            self.content.append(&mut dd);
            proof {
                assert(durations@.take(k as int + 1) =~= durations@.take(k as int).push(
                    durations@[k as int],
                ));
                lemma_tabbed_nums_push(durations@.take(k as int), durations@[k as int]);
                assert(self.content@ =~= pre + dt + tabbed_nums(durations@.take(k as int + 1)));
            }
            k += 1;
        }
        assert(durations@.take(durations@.len() as int) =~= durations@);
        self.content.push('\n');
        proof {
            assert(self.content@ =~= pre + entry_line(window_start, durations@));
            lemma_entry_round_trip(window_start, durations@);
            let line = entry_line(window_start, durations@);
            assert(self.content@.take(self.open_offset as int) =~= pre);
            assert(self.content@.skip(self.open_offset as int) =~= line);
            assert forall|i: int|
                self.open_offset <= i < self.content@.len() - 1 implies self.content@[i]
                != '\n' by {
                assert(self.content@[i] == line[i - self.open_offset]);
                assert(line[i - self.open_offset] == line.drop_last()[i - self.open_offset]);
                if line.drop_last()[i - self.open_offset] == '\n' {
                    assert(line.drop_last().contains('\n'));
                }
            }
        }
    }

    /// Seals the open entry: the next rewrite appends a fresh line.
    pub fn lock_last_entry(&mut self)
        requires
            old(self).wf(),
            old(self).open_region().len() == 0 || entry_shaped(
                old(self).open_region(),
                old(self).cats_dv().len(),
            ),
        ensures
            final(self).wf(),
            final(self).categories == old(self).categories,
            final(self).content == old(self).content,
            final(self).open_offset == final(self).content@.len(),
            final(self).open_region().len() == 0,
            final(self).locked@ == if old(self).open_region().len() == 0 {
                old(self).locked@
            } else {
                old(self).locked@.push(old(self).open_region())
            },
    {
        if self.open_offset < self.content.len() {
            proof {
                let region = self.content@.skip(self.open_offset as int);
                self.locked@.lemma_flatten_push(region);
                assert(self.content@.take(self.content@.len() as int) =~= self.content@.take(
                    self.open_offset as int,
                ) + region);
            }
            self.locked = Ghost(self.locked@.push(self.content@.skip(self.open_offset as int)));
        } else {
            assert(self.open_region().len() == 0);
        }
        self.open_offset = self.content.len();
        assert(self.content@.take(self.open_offset as int) == header_str(self.cats_dv())
            + self.locked@.flatten());
    }

    /// Parses the open entry, if any. A nonempty open entry that does not
    /// parse as a timestamp plus one duration per category is an error.
    pub fn get_last_entry(&self) -> (r: Result<Option<(u64, Vec<u64>)>, StoreError>)
        requires
            self.wf(),
        ensures
            match r {
                Ok(opt) => match opt {
                    None => self.open_region().len() == 0,
                    Some((t, ds)) => parse_entry(self.open_region(), self.cats_dv().len())
                        == Some((t, ds@)),
                },
                Err(e) => e == StoreError::MalformedEntry,
            },
            r is Err <==> (self.open_region().len() > 0 && parse_entry(
                self.open_region(),
                self.cats_dv().len(),
            ) is None),
            r matches Ok(opt) ==> (opt is None <==> self.open_region().len() == 0),
    {
        let ghost region = self.open_region();
        let n = self.content.len();
        let ncats = self.categories.len();
        if self.open_offset >= n {
            assert(region.len() == 0);
            return Ok(None);
        }
        assert(region.len() > 0);
        if self.content[n - 1] != '\n' {
            assert(region.last() == self.content@[n - 1]);
            return Err(StoreError::MalformedEntry);
        }
        assert(region.last() == '\n');
        assert(!region.drop_last().contains('\n')) by {
            if region.drop_last().contains('\n') {
                let j = choose|j: int|
                    0 <= j < region.drop_last().len() && (#[trigger] region.drop_last()[j])
                        == '\n';
                assert(region[j] == '\n');
                assert(self.content@[self.open_offset + j] == '\n');
            }
        }
        let fields = split_fields(&self.content, self.open_offset, n - 1, '\t');
        assert(region.drop_last() =~= self.content@.subrange(
            self.open_offset as int,
            n as int - 1,
        ));
        let ghost fs = split_on(region.drop_last(), '\t');
        assert(fields.deep_view() == fs);
        proof {
            lemma_split_on_len(region.drop_last(), '\t');
        }
        assert(fields@.len() >= 1);
        if fields.len() - 1 != ncats {
            return Err(StoreError::MalformedEntry);
        }
        let t = match parse_dec_u64(&fields[0], 0, fields[0].len()) {
            Some(t) => t,
            None => {
                proof {
                    assert(fields[0]@.subrange(0, fields[0]@.len() as int) =~= fs[0]);
                    assert(!is_dec_u64(fs[0]));
                    assert(!crate::encoding::all_dec_u64(fs));
                }
                return Err(StoreError::MalformedEntry);
            },
        };
        proof {
            assert(fields[0]@.subrange(0, fields[0]@.len() as int) =~= fs[0]);
            crate::encoding::lemma_dec_val_nonneg(fs[0]);
        }
        let mut ds: Vec<u64> = Vec::new();
        let mut k: usize = 1;
        while k < fields.len()
            invariant
                1 <= k <= fields@.len(),
                fields@.len() == ncats + 1,
                ncats == self.cats_dv().len(),
                fields.deep_view() == fs,
                fs == split_on(region.drop_last(), '\t'),
                region == self.open_region(),
                region.len() > 0,
                region.last() == '\n',
                !region.drop_last().contains('\n'),
                self.wf(),
                ds@.len() == k - 1,
                forall|q: int|
                    1 <= q < k ==> is_dec_u64(#[trigger] fs[q]) && ds@[q - 1] == dec_val(fs[q]),
            decreases fields@.len() - k,
        {
            match parse_dec_u64(&fields[k], 0, fields[k].len()) {
                Some(d) => {
                    proof {
                        assert(fields[k as int]@.subrange(0, fields[k as int]@.len() as int)
                            =~= fs[k as int]);
                    }
                    ds.push(d);
                },
                None => {
                    proof {
                        assert(fields[k as int]@.subrange(0, fields[k as int]@.len() as int)
                            =~= fs[k as int]);
                        assert(!is_dec_u64(fs[k as int]));
                        assert(!crate::encoding::all_dec_u64(fs));
                    }
                    return Err(StoreError::MalformedEntry);
                },
            }
            k += 1;
        }
        proof {
            assert forall|q: int| 0 <= q < fs.len() implies is_dec_u64(#[trigger] fs[q]) by {
                if q > 0 {
                    assert(is_dec_u64(fs[q]));
                }
            }
            assert(crate::encoding::all_dec_u64(fs));
            assert forall|q: int| 1 <= q < fs.len() implies dec_val(#[trigger] fs[q]) >= 0 by {
                crate::encoding::lemma_dec_val_nonneg(fs[q]);
            }
            assert forall|q: int| 0 <= q < ncats implies ds@[q] == dec_val(fs[q + 1]) as u64 by {
                assert(is_dec_u64(fs[q + 1]) && ds@[q] == dec_val(fs[q + 1]));
            }
            assert(ds@ =~= Seq::new(ncats as nat, |q: int| dec_val(fs[q + 1]) as u64));
        }
        Ok(Some((t, ds)))
    }
}

/// A `Vec<char>` and its view carry the same characters.
proof fn lemma_chars_dv(v: Vec<char>)
    ensures
        v.deep_view() == v@,
{
    assert(v.deep_view() =~= v@);
}

/// Finds the first newline of the text.
fn find_newline(v: &Vec<char>) -> (r: Option<usize>)
    ensures
        r matches Some(k) ==> k < v@.len() && find_ch(v@, '\n') == k,
        r is None ==> find_ch(v@, '\n') == -1,
{
    let n = v.len();
    let mut i: usize = 0;
    while i < n
        invariant
            i <= n,
            n == v@.len(),
            forall|j: int| 0 <= j < i ==> v@[j] != '\n',
        decreases n - i,
    {
        if v[i] == '\n' {
            proof {
                lemma_find_ch_at(v@, '\n', i as int);
            }
            return Some(i);
        }
        i += 1;
    }
    proof {
        lemma_find_ch_props(v@, '\n');
        if find_ch(v@, '\n') != -1 {
            assert(v@[find_ch(v@, '\n')] == '\n');
        }
    }
    None
}

/// Whether a name can stand as a header field.
fn name_is_safe(s: &String) -> (b: bool)
    ensures
        b == header_safe(s@),
{
    let n = s.as_str().unicode_len();
    let mut i: usize = 0;
    while i < n
        invariant
            i <= n,
            n == s@.len(),
            forall|j: int| 0 <= j < i ==> s@[j] != '\t' && s@[j] != '\n',
        decreases n - i,
    {
        let c = s.as_str().get_char(i);
        if c == '\t' || c == '\n' {
            assert(s@.contains(c));
            return false;
        }
        i += 1;
    }
    proof {
        if s@.contains('\t') {
            let j = choose|j: int| 0 <= j < s@.len() && s@[j] == '\t';
        }
        if s@.contains('\n') {
            let j = choose|j: int| 0 <= j < s@.len() && s@[j] == '\n';
        }
    }
    true
}

/// Whether `a` appears within `b`, in order.
fn subseq_exec(a: &Vec<String>, b: &Vec<String>) -> (r: bool)
    ensures
        r == is_subsequence(a.deep_view(), b.deep_view()),
{
    let ghost adv = a.deep_view();
    let ghost bdv = b.deep_view();
    let na = a.len();
    let nb = b.len();
    let mut ai: usize = 0;
    let mut bi: usize = 0;
    assert(adv.skip(0) =~= adv);
    assert(bdv.skip(0) =~= bdv);
    loop
        invariant
            ai <= na,
            bi <= nb,
            na == adv.len(),
            nb == bdv.len(),
            adv == a.deep_view(),
            bdv == b.deep_view(),
            is_subsequence(adv, bdv) == is_subsequence(adv.skip(ai as int), bdv.skip(bi as int)),
        decreases nb - bi,
    {
        let ghost sa = adv.skip(ai as int);
        let ghost sb = bdv.skip(bi as int);
        if ai >= na {
            assert(sa.len() == 0);
            return true;
        }
        if bi >= nb {
            assert(sb.len() == 0 && sa.len() > 0);
            return false;
        }
        assert(sa[0] == adv[ai as int] && sb[0] == bdv[bi as int]);
        assert(adv[ai as int] == a@[ai as int]@ && bdv[bi as int] == b@[bi as int]@);
        proof {
            assert(sa.drop_first() =~= adv.skip(ai as int + 1));
            assert(sb.drop_first() =~= bdv.skip(bi as int + 1));
        }
        if a[ai] == b[bi] {
            ai += 1;
            bi += 1;
        } else {
            bi += 1;
        }
    }
}

/// Scans the entry lines after the header: checks the shape of every
/// non-final line, and finds where the open entry begins.
fn scan_entries(text: &Vec<char>, bstart: usize, ncats: usize) -> (r: Result<
    (usize, Ghost<Seq<Seq<char>>>),
    StoreError,
>)
    requires
        bstart <= text@.len(),
    ensures
        ({
            let body = text@.skip(bstart as int);
            &&& (r is Err <==> !scan_ok(body, ncats as nat))
            &&& (r matches Err(e) ==> e == StoreError::WrongFieldCount)
            &&& (r matches Ok((off, locked)) ==> {
                &&& bstart <= off <= text@.len()
                &&& locked@.flatten() == text@.subrange(bstart as int, off as int)
                &&& (forall|k: int|
                    0 <= k < locked@.len() ==> entry_shaped(#[trigger] locked@[k], ncats as nat))
                &&& text@.skip(off as int) == open_region_of(body)
                &&& (forall|i: int| off <= i < text@.len() - 1 ==> text@[i] != '\n')
            })
        }),
{
    let n = text.len();
    let ghost body = text@.skip(bstart as int);
    let mut line_start: usize = bstart;
    let mut tabs: usize = 0;
    let ghost mut done: Seq<Seq<char>> = Seq::<Seq<char>>::empty();
    let ghost mut done_nl: Seq<Seq<char>> = Seq::<Seq<char>>::empty();
    let mut last_len: usize = 0;
    let mut ok_all: bool = true;
    let mut ok_but_last: bool = true;
    let mut i: usize = bstart;
    proof {
        assert(text@.subrange(bstart as int, bstart as int) =~= Seq::<char>::empty());
        assert(split_on(Seq::<char>::empty(), '\n') =~~= seq![Seq::<char>::empty()]);
        assert(done.push(text@.subrange(bstart as int, bstart as int)) =~~= seq![
            Seq::<char>::empty(),
        ]);
        assert(done_nl.flatten() =~= Seq::<char>::empty());
        assert(count_ch(Seq::<char>::empty(), '\t') == 0);
    }
    while i < n
        invariant
            bstart <= line_start <= i <= n,
            n == text@.len(),
            split_on(text@.subrange(bstart as int, i as int), '\n') == done.push(
                text@.subrange(line_start as int, i as int),
            ),
            done_nl.len() == done.len(),
            forall|k: int| 0 <= k < done.len() ==> done_nl[k] == (#[trigger] done[k]) + seq!['\n'],
            done_nl.flatten() == text@.subrange(bstart as int, line_start as int),
            !text@.subrange(line_start as int, i as int).contains('\n'),
            tabs == count_ch(text@.subrange(line_start as int, i as int), '\t'),
            tabs <= i - line_start,
            done.len() > 0 ==> line_start as int - last_len as int - 1 >= bstart && done.last()
                == text@.subrange(line_start as int - last_len as int - 1, line_start as int - 1)
                && text@[line_start as int - 1] == '\n' && done.last().len() == last_len,
            done.len() == 0 ==> line_start == bstart,
            ok_all <==> (forall|k: int|
                0 <= k < done.len() ==> count_ch(#[trigger] done[k], '\t') == ncats),
            ok_but_last <==> (forall|k: int|
                0 <= k < done.len() - 1 ==> count_ch(#[trigger] done[k], '\t') == ncats),
        decreases n - i,
    {
        let c = text[i];
        let ghost cur = text@.subrange(line_start as int, i as int);
        proof {
            assert(text@.subrange(bstart as int, i as int + 1) =~= text@.subrange(
                bstart as int,
                i as int,
            ).push(text@[i as int]));
            assert(text@.subrange(line_start as int, i as int + 1) =~= cur.push(text@[i as int]));
        }
        if c == '\n' {
            proof {
                lemma_split_push_sep(text@.subrange(bstart as int, i as int), '\n');
                assert(split_on(text@.subrange(bstart as int, i as int + 1), '\n') =~~= done.push(
                    cur,
                ).push(Seq::<char>::empty()));
                done_nl.lemma_flatten_push(cur + seq!['\n']);
                assert(cur + seq!['\n'] =~= text@.subrange(line_start as int, i as int + 1));
                assert(done_nl.push(cur + seq!['\n']).flatten() =~= text@.subrange(
                    bstart as int,
                    i as int + 1,
                ));
            }
            let ghost prev_done = done;
            proof {
                done = done.push(cur);
                done_nl = done_nl.push(cur + seq!['\n']);
            }
            ok_but_last = ok_all;
            let line_ok = tabs == ncats;
            ok_all = ok_all && line_ok;
            last_len = i - line_start;
            line_start = i + 1;
            tabs = 0;
            proof {
                assert(done.last() == cur);
                assert(text@.subrange(line_start as int, i as int + 1) =~= Seq::<char>::empty());
                assert(count_ch(Seq::<char>::empty(), '\t') == 0);
                assert forall|k: int| 0 <= k < done.len() implies done_nl[k] == (
                #[trigger] done[k]) + seq!['\n'] by {
                    if k < prev_done.len() {
                        assert(done[k] == prev_done[k]);
                    }
                }
                assert(ok_all <==> (forall|k: int|
                    0 <= k < done.len() ==> count_ch(#[trigger] done[k], '\t') == ncats)) by {
                    if forall|k: int|
                        0 <= k < prev_done.len() ==> count_ch(#[trigger] prev_done[k], '\t')
                            == ncats {
                        assert forall|k: int|
                            0 <= k < done.len() - 1 implies count_ch(#[trigger] done[k], '\t')
                            == ncats by {
                            assert(done[k] == prev_done[k]);
                        }
                    } else {
                        let k = choose|k: int|
                            0 <= k < prev_done.len() && count_ch(#[trigger] prev_done[k], '\t')
                                != ncats;
                        assert(done[k] == prev_done[k]);
                    }
                }
                assert(ok_but_last <==> (forall|k: int|
                    0 <= k < done.len() - 1 ==> count_ch(#[trigger] done[k], '\t') == ncats)) by {
                    if forall|k: int|
                        0 <= k < prev_done.len() ==> count_ch(#[trigger] prev_done[k], '\t')
                            == ncats {
                        assert forall|k: int|
                            0 <= k < done.len() - 1 implies count_ch(#[trigger] done[k], '\t')
                            == ncats by {
                            assert(done[k] == prev_done[k]);
                        }
                    } else {
                        let k = choose|k: int|
                            0 <= k < prev_done.len() && count_ch(#[trigger] prev_done[k], '\t')
                                != ncats;
                        assert(done[k] == prev_done[k]);
                    }
                }
            }
        } else {
            proof {
                lemma_split_push_other(text@.subrange(bstart as int, i as int), '\n', c);
                lemma_split_on_len(text@.subrange(bstart as int, i as int), '\n');
                let sp = split_on(text@.subrange(bstart as int, i as int), '\n');
                assert(sp == done.push(cur));
                assert(sp.last() == cur);
                assert(split_on(text@.subrange(bstart as int, i as int + 1), '\n') =~~= done.push(
                    cur.push(c),
                ));
                lemma_count_push(cur, '\t', c);
                assert(!cur.push(c).contains('\n')) by {
                    if cur.push(c).contains('\n') {
                        let j = choose|j: int|
                            0 <= j < cur.push(c).len() && (#[trigger] cur.push(c)[j]) == '\n';
                        if j < cur.len() {
                            assert(cur[j] == '\n');
                        }
                    }
                }
            }
            if c == '\t' {
                tabs += 1;
            }
        }
        i += 1;
    }
    // the whole body is scanned; decide where the open entry begins
    let ghost parts = split_on(body, '\n');
    proof {
        assert(text@.subrange(bstart as int, n as int) =~= body);
        assert(parts == done.push(text@.subrange(line_start as int, n as int)));
        lemma_split_on_no_sep_inside(body, '\n');
    }
    if line_start < n {
        // the final line is unterminated: it is the open entry
        proof {
            assert(parts.last() == text@.subrange(line_start as int, n as int));
            assert(parts.last().len() > 0);
            assert(checked_lines(body) =~~= done);
            assert(open_region_of(body) == parts.last());
        }
        if !ok_all {
            proof {
                let k = choose|k: int|
                    0 <= k < done.len() && count_ch(#[trigger] done[k], '\t') != ncats;
                assert(checked_lines(body)[k] == done[k]);
                lemma_split_on_len(done[k], '\t');
                assert(!scan_ok(body, ncats as nat));
            }
            return Err(StoreError::WrongFieldCount);
        }
        proof {
            assert forall|k: int| 0 <= k < checked_lines(body).len() implies split_on(
                #[trigger] checked_lines(body)[k],
                '\t',
            ).len() == ncats + 1 by {
                assert(checked_lines(body)[k] == done[k]);
                assert(count_ch(done[k], '\t') == ncats);
                lemma_split_on_len(done[k], '\t');
            }
            assert forall|k: int| 0 <= k < done_nl.len() implies entry_shaped(
                #[trigger] done_nl[k],
                ncats as nat,
            ) by {
                assert(done_nl[k] == done[k] + seq!['\n']);
                assert(done_nl[k].drop_last() =~= done[k]);
                assert(parts[k] == done[k]);
                assert(!done[k].contains('\n'));
                assert(count_ch(done[k], '\t') == ncats);
                lemma_split_on_len(done[k], '\t');
            }
            assert(text@.skip(line_start as int) =~= parts.last());
            assert forall|j: int| line_start <= j < n - 1 implies text@[j] != '\n' by {
                assert(text@[j] == parts.last()[j - line_start]);
                assert(!parts.last().contains('\n'));
            }
        }
        return Ok((line_start, Ghost(done_nl)));
    }
    // the body ends at a line boundary (or is empty)
    proof {
        assert(text@.subrange(line_start as int, n as int) =~= Seq::<char>::empty());
        assert(parts.last().len() == 0);
    }
    if line_start == bstart {
        // no completed line at all: the body is empty, no entries yet
        proof {
            if done.len() > 0 {
                assert(line_start as int - last_len as int - 1 >= bstart);
            }
            assert(done.len() == 0);
            assert(parts =~~= seq![Seq::<char>::empty()]);
            assert(open_region_of(body) =~= Seq::<char>::empty());
            assert(text@.skip(bstart as int) =~= body);
            assert(body =~= Seq::<char>::empty());
            assert(checked_lines(body) =~~= Seq::<Seq<char>>::empty());
            assert(done_nl.flatten() =~= text@.subrange(bstart as int, bstart as int));
            assert(text@.skip(n as int) =~= Seq::<char>::empty());
        }
        return Ok((line_start, Ghost(done_nl)));
    }
    // the last completed line is the open entry
    proof {
        if done.len() == 0 {
            assert(line_start == bstart);
            assert(false);
        }
        assert(line_start as int - last_len as int - 1 >= bstart);
    }
    let off = line_start - last_len - 1;
    proof {
        assert(done.len() > 0);
        assert(line_start == n);
        assert(parts.len() == done.len() + 1);
        assert(parts[parts.len() - 2] == done.last());
        assert(checked_lines(body) =~~= done.take(done.len() - 1));
        assert(open_region_of(body) == done.last() + seq!['\n']);
    }
    if !ok_but_last {
        proof {
            let k = choose|k: int|
                0 <= k < done.len() - 1 && count_ch(#[trigger] done[k], '\t') != ncats;
            assert(checked_lines(body)[k] == done[k]);
            lemma_split_on_len(done[k], '\t');
            assert(!scan_ok(body, ncats as nat));
        }
        return Err(StoreError::WrongFieldCount);
    }
    proof {
        assert forall|k: int| 0 <= k < checked_lines(body).len() implies split_on(
            #[trigger] checked_lines(body)[k],
            '\t',
        ).len() == ncats + 1 by {
            assert(checked_lines(body)[k] == done[k]);
            assert(count_ch(done[k], '\t') == ncats);
            lemma_split_on_len(done[k], '\t');
        }
        // split the sealed lines from the final (open) one
        let m = done_nl.len();
        assert(done_nl =~~= done_nl.take(m - 1).push(done_nl.last()));
        done_nl.take(m - 1).lemma_flatten_push(done_nl.last());
        assert(done_nl.take(m - 1).push(done_nl.last()).flatten() == done_nl.take(
            m - 1,
        ).flatten() + done_nl.last());
        assert(done_nl.last() == done.last() + seq!['\n']);
        assert(done.last() == text@.subrange(off as int, n as int - 1));
        assert(done_nl.last() =~= text@.subrange(off as int, n as int));
        assert(done_nl.take(m - 1).flatten() + text@.subrange(off as int, n as int)
            == text@.subrange(bstart as int, n as int));
        assert(done_nl.take(m - 1).flatten() =~= text@.subrange(bstart as int, off as int)) by {
            let f = done_nl.take(m - 1).flatten();
            assert(f.len() == (n - bstart) - (n - off));
            assert forall|j: int| 0 <= j < f.len() implies f[j] == text@.subrange(
                bstart as int,
                off as int,
            )[j] by {
                assert(f[j] == (f + text@.subrange(off as int, n as int))[j]);
                assert((f + text@.subrange(off as int, n as int))[j] == text@.subrange(
                    bstart as int,
                    n as int,
                )[j]);
            }
        }
        assert forall|k: int| 0 <= k < done_nl.take(m - 1).len() implies entry_shaped(
            #[trigger] done_nl.take(m - 1)[k],
            ncats as nat,
        ) by {
            assert(done_nl.take(m - 1)[k] == done_nl[k]);
            assert(done_nl[k] == done[k] + seq!['\n']);
            assert(done_nl[k].drop_last() =~= done[k]);
            assert(parts[k] == done[k]);
            assert(!done[k].contains('\n'));
            assert(count_ch(done[k], '\t') == ncats);
            lemma_split_on_len(done[k], '\t');
        }
        assert(text@.skip(off as int) =~= done.last() + seq!['\n']);
        assert forall|j: int| off <= j < n - 1 implies text@[j] != '\n' by {
            assert(text@[j] == done.last()[j - off]);
            assert(!done.last().contains('\n'));
        }
    }
    Ok((off, Ghost(done_nl.take(done_nl.len() - 1))))
}

impl Database {
    /// Opens a store from the text of an existing file, validating its
    /// schema, or creates a fresh one with a header for the required
    /// categories. The required categories must be an order-preserving
    /// subset of the store's.
    pub fn open(existing: Option<Vec<char>>, required: UniqueCategories) -> (r: Result<
        Database,
        StoreError,
    >)
        ensures
            match existing {
                None => {
                    &&& (r is Ok <==> all_header_safe(required.dv()) && sorted_strict(
                        required.dv(),
                    ))
                    &&& (r == Err::<Database, StoreError>(StoreError::InvalidCategoryName)
                        <==> !all_header_safe(required.dv()))
                    &&& (r == Err::<Database, StoreError>(StoreError::UnsortedCategories) <==> (
                    all_header_safe(required.dv()) && !sorted_strict(required.dv())))
                    &&& (r matches Ok(db) ==> {
                        &&& db.wf()
                        &&& db.cats_dv() == required.dv()
                        &&& db.content@ == header_str(required.dv())
                        &&& db.open_region().len() == 0
                        &&& db.locked@.len() == 0
                    })
                },
                Some(text) => {
                    let ff = find_ch(text@, '\n');
                    let hf = header_fields_of(text@);
                    let cats = cats_of(text@);
                    let body = body_of(text@);
                    &&& (r == Err::<Database, StoreError>(StoreError::MissingHeader) <==> ff
                        == -1)
                    &&& (r == Err::<Database, StoreError>(StoreError::MissingTimeMarker) <==> (ff
                        >= 0 && hf[0] != time_marker()))
                    &&& (r == Err::<Database, StoreError>(StoreError::UnsortedCategories) <==> (ff
                        >= 0 && hf[0] == time_marker() && !sorted_strict(cats)))
                    &&& (r == Err::<Database, StoreError>(StoreError::SchemaMismatch) <==> (ff
                        >= 0 && hf[0] == time_marker() && sorted_strict(cats) && !is_subsequence(
                        required.dv(),
                        cats,
                    )))
                    &&& (r == Err::<Database, StoreError>(StoreError::WrongFieldCount) <==> (ff
                        >= 0 && hf[0] == time_marker() && sorted_strict(cats) && is_subsequence(
                        required.dv(),
                        cats,
                    ) && !scan_ok(body, cats.len())))
                    &&& (r is Ok <==> (ff >= 0 && hf[0] == time_marker() && sorted_strict(cats)
                        && is_subsequence(required.dv(), cats) && scan_ok(body, cats.len())))
                    &&& (r matches Ok(db) ==> {
                        &&& db.wf()
                        &&& db.content@ == text@
                        &&& db.cats_dv() == cats
                        &&& db.open_region() == open_region_of(body)
                    })
                },
            },
    {
        match existing {
            None => Database::create_fresh(required),
            Some(text) => Database::open_existing(text, required),
        }
    }

    /// Builds the header text for a fresh store.
    fn create_fresh(required: UniqueCategories) -> (r: Result<Database, StoreError>)
        ensures
            r is Ok <==> all_header_safe(required.dv()) && sorted_strict(required.dv()),
            r == Err::<Database, StoreError>(StoreError::InvalidCategoryName)
                <==> !all_header_safe(required.dv()),
            r == Err::<Database, StoreError>(StoreError::UnsortedCategories) <==> (all_header_safe(
                required.dv(),
            ) && !sorted_strict(required.dv())),
            r matches Ok(db) ==> {
                &&& db.wf()
                &&& db.cats_dv() == required.dv()
                &&& db.content@ == header_str(required.dv())
                &&& db.open_region().len() == 0
                &&& db.locked@.len() == 0
            },
    {
        let ghost rdv = required.dv();
        let ncats = required.len();
        let mut k: usize = 0;
        while k < ncats
            invariant
                k <= ncats,
                ncats == rdv.len(),
                rdv == required.dv(),
                forall|q: int| 0 <= q < k ==> header_safe(#[trigger] rdv[q]),
            decreases ncats - k,
        {
            if !name_is_safe(required.name_at(k)) {
                assert(!header_safe(rdv[k as int]));
                return Err(StoreError::InvalidCategoryName);
            }
            k += 1;
        }
        assert(all_header_safe(rdv));
        let mut k: usize = 1;
        while k < ncats
            invariant
                ncats > 0 ==> 1 <= k,
                k <= ncats || ncats == 0,
                ncats == rdv.len(),
                rdv == required.dv(),
                all_header_safe(rdv),
                forall|q: int| 0 <= q < k - 1 ==> lex_lt(#[trigger] rdv[q], rdv[q + 1]),
            decreases ncats - k,
        {
            if !str_lex_lt(required.name_at(k - 1).as_str(), required.name_at(k).as_str()) {
                assert(!lex_lt(rdv[k as int - 1], rdv[k as int]));
                assert(!sorted_strict(rdv)) by {
                    if sorted_strict(rdv) {
                        assert(lex_lt(rdv[k as int - 1], rdv[k as int]));
                    }
                }
                return Err(StoreError::UnsortedCategories);
            }
            k += 1;
        }
        proof {
            lemma_sorted_from_adjacent(rdv);
        }
        let mut content: Vec<char> = Vec::new();
        content.push('t');
        content.push('i');
        content.push('m');
        content.push('e');
        assert(content@ =~= time_marker());
        let ghost tn0 = crate::encoding::tabbed_names(rdv.take(0));
        proof {
            assert(rdv.take(0) =~= Seq::<Seq<char>>::empty());
            assert(crate::encoding::tabbed_names(Seq::<Seq<char>>::empty())
                =~= Seq::<char>::empty());
            assert(content@ =~= time_marker() + crate::encoding::tabbed_names(rdv.take(0)));
        }
        let mut k: usize = 0;
        while k < ncats
            invariant
                k <= ncats,
                ncats == rdv.len(),
                rdv == required.dv(),
                content@ == time_marker() + crate::encoding::tabbed_names(rdv.take(k as int)),
            decreases ncats - k,
        {
            content.push('\t');
            let mut cs = crate::encoding::str_chars(required.name_at(k).as_str());
            content.append(&mut cs);
            proof {
                assert(rdv.take(k as int + 1) =~= rdv.take(k as int).push(rdv[k as int]));
                crate::encoding::lemma_tabbed_names_push(rdv.take(k as int), rdv[k as int]);
                assert(content@ =~= time_marker() + crate::encoding::tabbed_names(
                    rdv.take(k as int + 1),
                ));
            }
            k += 1;
        }
        assert(rdv.take(ncats as int) =~= rdv);
        content.push('\n');
        assert(content@ =~= header_str(rdv));
        let n = content.len();
        let db = Database {
            categories: required,
            content,
            open_offset: n,
            locked: Ghost(Seq::<Seq<char>>::empty()),
        };
        proof {
            assert(Seq::<Seq<char>>::empty().flatten() =~= Seq::<char>::empty());
            assert(db.content@.take(n as int) =~= db.content@);
            assert(db.content@.take(n as int) =~= header_str(db.cats_dv())
                + db.locked@.flatten());
            assert(db.open_region() =~= Seq::<char>::empty());
        }
        Ok(db)
    }

    /// Parses and validates an existing store file.
    fn open_existing(text: Vec<char>, required: UniqueCategories) -> (r: Result<
        Database,
        StoreError,
    >)
        ensures
            ({
                let ff = find_ch(text@, '\n');
                let hf = header_fields_of(text@);
                let cats = cats_of(text@);
                let body = body_of(text@);
                &&& (r == Err::<Database, StoreError>(StoreError::MissingHeader) <==> ff == -1)
                &&& (r == Err::<Database, StoreError>(StoreError::MissingTimeMarker) <==> (ff >= 0
                    && hf[0] != time_marker()))
                &&& (r == Err::<Database, StoreError>(StoreError::UnsortedCategories) <==> (ff >= 0
                    && hf[0] == time_marker() && !sorted_strict(cats)))
                &&& (r == Err::<Database, StoreError>(StoreError::SchemaMismatch) <==> (ff >= 0
                    && hf[0] == time_marker() && sorted_strict(cats) && !is_subsequence(
                    required.dv(),
                    cats,
                )))
                &&& (r == Err::<Database, StoreError>(StoreError::WrongFieldCount) <==> (ff >= 0
                    && hf[0] == time_marker() && sorted_strict(cats) && is_subsequence(
                    required.dv(),
                    cats,
                ) && !scan_ok(body, cats.len())))
                &&& (r is Ok <==> (ff >= 0 && hf[0] == time_marker() && sorted_strict(cats)
                    && is_subsequence(required.dv(), cats) && scan_ok(body, cats.len())))
                &&& (r matches Ok(db) ==> {
                    &&& db.wf()
                    &&& db.content@ == text@
                    &&& db.cats_dv() == cats
                    &&& db.open_region() == open_region_of(body)
                })
            }),
    {
        let ghost hf = header_fields_of(text@);
        let ghost cats = cats_of(text@);
        let n = text.len();
        let hend = match find_newline(&text) {
            Some(h) => h,
            None => {
                return Err(StoreError::MissingHeader);
            },
        };
        let ghost ff = find_ch(text@, '\n');
        assert(ff == hend);
        proof {
            lemma_find_ch_props(text@, '\n');
        }
        let hfields = split_fields(&text, 0, hend, '\t');
        proof {
            assert(text@.subrange(0, hend as int) =~= text@.take(hend as int));
            assert(hfields.deep_view() == hf);
            lemma_split_on_len(text@.take(hend as int), '\t');
        }
        // the first field must be the time column marker
        let f0 = &hfields[0];
        proof {
            lemma_chars_dv(hfields@[0]);
            assert(hf[0] == f0@);
        }
        let marker_ok = f0.len() == 4 && f0[0] == 't' && f0[1] == 'i' && f0[2] == 'm' && f0[3]
            == 'e';
        if !marker_ok {
            assert(f0@ != time_marker()) by {
                if f0@ == time_marker() {
                    assert(f0@.len() == 4);
                    assert(f0@[0] == 't' && f0@[1] == 'i' && f0@[2] == 'm' && f0@[3] == 'e');
                }
            }
            return Err(StoreError::MissingTimeMarker);
        }
        assert(hf[0] == time_marker()) by {
            assert(f0@ =~= time_marker());
        }
        // read the category names
        let nf = hfields.len();
        let mut catvec: Vec<String> = Vec::new();
        let mut k: usize = 1;
        assert(catvec.deep_view() =~= cats.take(0));
        while k < nf
            invariant
                1 <= k <= nf,
                nf == hf.len(),
                hf == header_fields_of(text@),
                cats == cats_of(text@),
                cats.len() == nf - 1,
                hfields.deep_view() == hf,
                hfields@.len() == nf,
                hf[0] == time_marker(),
                ff == find_ch(text@, '\n'),
                ff == hend,
                hend < text@.len(),
                catvec.deep_view() == cats.take(k as int - 1),
            decreases nf - k,
        {
            let name = chars_string(&hfields[k], 0, hfields[k].len());
            proof {
                lemma_chars_dv(hfields@[k as int]);
                assert(hf[k as int] == hfields@[k as int].deep_view());
                assert(name@ =~= hfields@[k as int]@);
                assert(name@ == hf[k as int]);
                assert(hf[k as int] == cats[k as int - 1]);
            }
            let ghost prev = catvec.deep_view();
            catvec.push(name);
            proof {
                assert(catvec.deep_view() =~~= prev.push(name@));
                assert(cats.take(k as int) =~~= cats.take(k as int - 1).push(cats[k as int - 1]));
                assert(catvec.deep_view() =~~= cats.take(k as int));
            }
            k += 1;
        }
        assert(cats.take(nf as int - 1) =~= cats);
        assert(catvec.deep_view() == cats);
        // categories must be strictly sorted
        let ncats = catvec.len();
        let mut k: usize = 1;
        while k < ncats
            invariant
                ncats > 0 ==> 1 <= k,
                k <= ncats || ncats == 0,
                ncats == cats.len(),
                cats == cats_of(text@),
                catvec.deep_view() == cats,
                catvec@.len() == ncats,
                hf == header_fields_of(text@),
                hf[0] == time_marker(),
                ff == find_ch(text@, '\n'),
                ff == hend,
                hend < text@.len(),
                forall|q: int| 0 <= q < k - 1 ==> lex_lt(#[trigger] cats[q], cats[q + 1]),
            decreases ncats - k,
        {
            proof {
                assert(catvec@[k as int - 1]@ == cats[k as int - 1]);
                assert(catvec@[k as int]@ == cats[k as int]);
            }
            if !str_lex_lt(catvec[k - 1].as_str(), catvec[k].as_str()) {
                assert(!lex_lt(cats[k as int - 1], cats[k as int]));
                assert(!sorted_strict(cats)) by {
                    if sorted_strict(cats) {
                        assert(lex_lt(cats[k as int - 1], cats[k as int]));
                    }
                }
                return Err(StoreError::UnsortedCategories);
            }
            k += 1;
        }
        proof {
            lemma_sorted_from_adjacent(cats);
        }
        // the classifier's categories must appear within the store's
        if !subseq_exec(&required.0, &catvec) {
            return Err(StoreError::SchemaMismatch);
        }
        // scan the entry lines
        let (off, locked) = match scan_entries(&text, hend + 1, ncats) {
            Ok(pair) => pair,
            Err(_) => {
                assert(text@.skip(hend as int + 1) =~= body_of(text@));
                return Err(StoreError::WrongFieldCount);
            },
        };
        assert(text@.skip(hend as int + 1) =~= body_of(text@));
        let db = Database { categories: UniqueCategories(catvec), content: text, open_offset: off, locked };
        proof {
            let body = body_of(db.content@);
            // reconstruct the header from its fields
            lemma_split_join(db.content@.take(hend as int), '\t');
            assert(hf =~~= seq![hf[0]] + cats);
            lemma_join_tabbed(time_marker(), cats);
            assert(db.content@.take(hend as int) == time_marker()
                + crate::encoding::tabbed_names(cats));
            assert(db.content@[hend as int] == '\n');
            assert(db.content@.take(hend as int + 1) =~= db.content@.take(hend as int) + seq![
                '\n',
            ]);
            assert(db.content@.take(hend as int + 1) =~= header_str(cats));
            assert(db.content@.take(off as int) =~= db.content@.take(hend as int + 1)
                + db.content@.subrange(hend as int + 1, off as int));
            assert(db.content@.take(off as int) == header_str(cats) + db.locked@.flatten());
            // the header fields are free of tabs and newlines
            lemma_split_on_no_sep_inside(db.content@.take(hend as int), '\t');
            assert(!db.content@.take(hend as int).contains('\n')) by {
                if db.content@.take(hend as int).contains('\n') {
                    let j = choose|j: int|
                        0 <= j < hend && (#[trigger] db.content@.take(hend as int)[j]) == '\n';
                    assert(db.content@[j] == '\n');
                }
            }
            lemma_split_on_keeps_absent(db.content@.take(hend as int), '\t', '\n');
            assert(all_header_safe(cats)) by {
                assert forall|q: int| 0 <= q < cats.len() implies header_safe(
                    #[trigger] cats[q],
                ) by {
                    assert(cats[q] == hf[q + 1]);
                    assert(!hf[q + 1].contains('\t'));
                    assert(!hf[q + 1].contains('\n'));
                }
            }
            assert(db.wf());
        }
        Ok(db)
    }
}

/// The newline-split of terminated lines followed by a tail: one part per
/// line, then the parts of the tail.
proof fn lemma_parts_of_flatten(lines: Seq<Seq<char>>, tail: Seq<char>)
    requires
        forall|k: int|
            0 <= k < lines.len() ==> (#[trigger] lines[k]).len() > 0 && lines[k].last() == '\n'
                && !lines[k].drop_last().contains('\n'),
    ensures
        split_on(lines.flatten() + tail, '\n') == lines.map_values(|l: Seq<char>| l.drop_last())
            + split_on(tail, '\n'),
    decreases lines.len(),
{
    if lines.len() == 0 {
        assert(lines.flatten() =~= Seq::<char>::empty());
        assert(lines.flatten() + tail =~= tail);
        assert(lines.map_values(|l: Seq<char>| l.drop_last()) + split_on(tail, '\n') =~~= split_on(
            tail,
            '\n',
        ));
    } else {
        let rest = lines.drop_first();
        assert forall|k: int|
            0 <= k < rest.len() implies (#[trigger] rest[k]).len() > 0 && rest[k].last() == '\n'
            && !rest[k].drop_last().contains('\n') by {
            assert(rest[k] == lines[k + 1]);
        }
        lemma_parts_of_flatten(rest, tail);
        assert(lines.flatten() == lines[0] + rest.flatten());
        assert(lines[0] =~= lines[0].drop_last() + seq!['\n']);
        assert(lines.flatten() + tail =~= lines[0].drop_last() + seq!['\n'] + (rest.flatten()
            + tail));
        crate::encoding::lemma_split_concat(lines[0].drop_last(), rest.flatten() + tail, '\n');
        assert(split_on(lines.flatten() + tail, '\n') == seq![lines[0].drop_last()] + (
        rest.map_values(|l: Seq<char>| l.drop_last()) + split_on(tail, '\n')));
        assert(seq![lines[0].drop_last()] + (rest.map_values(|l: Seq<char>| l.drop_last())
            + split_on(tail, '\n')) =~~= lines.map_values(|l: Seq<char>| l.drop_last())
            + split_on(tail, '\n'));
    }
}

impl Database {
    /// What a restart reads back. Together with `open`'s contract this
    /// says that the text of a well-formed store reopens successfully
    /// under the same category set, with entry scanning satisfied, and
    /// that the open entry is found exactly where this store holds it.
    /// The one nuance is a store sealed and not yet rewritten: a seal
    /// becomes durable only once the next entry's first write lands, so
    /// such a text reopens with its last sealed line as the open entry.
    pub proof fn lemma_reopen_scan(self)
        requires
            self.wf(),
        ensures
            find_ch(self.content@, '\n') == header_str(self.cats_dv()).len() - 1,
            header_fields_of(self.content@) == seq![time_marker()] + self.cats_dv(),
            cats_of(self.content@) == self.cats_dv(),
            scan_ok(body_of(self.content@), self.cats_dv().len()),
            self.open_region().len() > 0 ==> open_region_of(body_of(self.content@))
                == self.open_region(),
            self.open_region().len() == 0 && self.locked@.len() > 0 ==> open_region_of(
                body_of(self.content@),
            ) == self.locked@.last(),
            self.open_region().len() == 0 && self.locked@.len() == 0 ==> open_region_of(
                body_of(self.content@),
            ).len() == 0,
    {
        let cats = self.cats_dv();
        let hdr = header_str(cats);
        let hbody = time_marker() + crate::encoding::tabbed_names(cats);
        let text = self.content@;
        let tail = self.open_region();
        // the first newline ends the header
        assert forall|k: int| 0 <= k < cats.len() implies !(#[trigger] cats[k]).contains(
            '\t',
        ) && !cats[k].contains('\n') by {
            assert(header_safe(cats[k]));
        }
        crate::encoding::lemma_tabbed_names_absent(cats, '\n');
        assert(!hbody.contains('\n')) by {
            if hbody.contains('\n') {
                let j = choose|j: int| 0 <= j < hbody.len() && hbody[j] == '\n';
                if j < 4 {
                } else {
                    assert(hbody[j] == crate::encoding::tabbed_names(cats)[j - 4]);
                    assert(crate::encoding::tabbed_names(cats).contains('\n'));
                }
            }
        }
        assert(text.take(self.open_offset as int) == hdr + self.locked@.flatten());
        assert(text.take(self.open_offset as int).len() == self.open_offset);
        assert((hdr + self.locked@.flatten()).len() == hdr.len() + self.locked@.flatten().len());
        assert(hdr.len() <= self.open_offset);
        assert forall|j: int| 0 <= j < hbody.len() implies text[j] != '\n' by {
            assert(text[j] == text.take(self.open_offset as int)[j]);
            assert(text.take(self.open_offset as int)[j] == hdr[j]);
            assert(hdr[j] == hbody[j]);
        }
        assert(text[hbody.len() as int] == '\n') by {
            assert(text[hbody.len() as int] == text.take(self.open_offset as int)[hbody.len() as int]);
            assert(text.take(self.open_offset as int)[hbody.len() as int] == hdr[hbody.len() as int]);
            assert(hdr[hbody.len() as int] == '\n');
        }
        lemma_find_ch_at(text, '\n', hbody.len() as int);
        assert(find_ch(text, '\n') == hdr.len() - 1);
        // the header line splits into the marker and the categories
        assert(text.take(hbody.len() as int) =~= hbody);
        crate::encoding::lemma_split_tabbed_names(time_marker(), cats);
        assert(header_fields_of(text) == seq![time_marker()] + cats);
        assert(cats_of(text) =~~= cats);
        // the body is the sealed lines followed by the open region
        let body = body_of(text);
        assert(body =~= self.locked@.flatten() + tail) by {
            assert(body == text.skip(hdr.len() as int));
            assert(text =~= text.take(self.open_offset as int) + tail);
        }
        assert forall|k: int|
            0 <= k < self.locked@.len() implies (#[trigger] self.locked@[k]).len() > 0
            && self.locked@[k].last() == '\n' && !self.locked@[k].drop_last().contains('\n') by {
            assert(entry_shaped(self.locked@[k], cats.len()));
        }
        lemma_parts_of_flatten(self.locked@, tail);
        let linesd = self.locked@.map_values(|l: Seq<char>| l.drop_last());
        assert(split_on(body, '\n') == linesd + split_on(tail, '\n'));
        let parts = split_on(body, '\n');
        // every line of the body before the open region keeps its field count
        assert forall|k: int| 0 <= k < linesd.len() implies split_on(
            #[trigger] linesd[k],
            '\t',
        ).len() == cats.len() + 1 by {
            assert(linesd[k] == self.locked@[k].drop_last());
            assert(entry_shaped(self.locked@[k], cats.len()));
        }
        if tail.len() == 0 {
            assert(split_on(tail, '\n') =~~= seq![Seq::<char>::empty()]);
            assert(parts.last().len() == 0);
            if self.locked@.len() == 0 {
                assert(parts =~~= seq![Seq::<char>::empty()]);
                assert(checked_lines(body) =~~= Seq::<Seq<char>>::empty());
                assert(open_region_of(body).len() == 0);
            } else {
                assert(parts.len() == linesd.len() + 1);
                assert(parts.len() >= 2);
                assert(checked_lines(body) =~~= linesd.take(linesd.len() - 1));
                assert forall|k: int| 0 <= k < checked_lines(body).len() implies split_on(
                    #[trigger] checked_lines(body)[k],
                    '\t',
                ).len() == cats.len() + 1 by {
                    assert(checked_lines(body)[k] == linesd[k]);
                }
                assert(parts[parts.len() - 2] == linesd.last());
                assert(open_region_of(body) == linesd.last() + seq!['\n']);
                assert(linesd.last() == self.locked@.last().drop_last());
                assert(self.locked@.last().drop_last() + seq!['\n'] =~= self.locked@.last());
            }
        } else if tail.last() != '\n' {
            assert(!tail.contains('\n')) by {
                if tail.contains('\n') {
                    let j = choose|j: int| 0 <= j < tail.len() && tail[j] == '\n';
                    assert(text[self.open_offset + j] == '\n');
                    assert(j < tail.len() - 1 || tail.last() == '\n');
                }
            }
            crate::encoding::lemma_split_no_sep(tail, '\n');
            assert(parts =~~= linesd + seq![tail]);
            assert(parts.last() == tail);
            assert(checked_lines(body) =~~= linesd);
            assert forall|k: int| 0 <= k < checked_lines(body).len() implies split_on(
                #[trigger] checked_lines(body)[k],
                '\t',
            ).len() == cats.len() + 1 by {
                assert(checked_lines(body)[k] == linesd[k]);
            }
            assert(open_region_of(body) == tail);
        } else {
            let tprefix = tail.drop_last();
            assert(!tprefix.contains('\n')) by {
                if tprefix.contains('\n') {
                    let j = choose|j: int| 0 <= j < tprefix.len() && tprefix[j] == '\n';
                    assert(tail[j] == '\n');
                    assert(text[self.open_offset + j] == '\n');
                }
            }
            assert(tail =~= tprefix + seq!['\n'] + Seq::<char>::empty());
            crate::encoding::lemma_split_concat(tprefix, Seq::<char>::empty(), '\n');
            assert(split_on(Seq::<char>::empty(), '\n') =~~= seq![Seq::<char>::empty()]);
            assert(split_on(tail, '\n') =~~= seq![tprefix, Seq::<char>::empty()]);
            assert(parts =~~= linesd + seq![tprefix, Seq::<char>::empty()]);
            assert(parts.last().len() == 0);
            assert(parts.len() == linesd.len() + 2);
            assert(checked_lines(body) =~~= linesd);
            assert forall|k: int| 0 <= k < checked_lines(body).len() implies split_on(
                #[trigger] checked_lines(body)[k],
                '\t',
            ).len() == cats.len() + 1 by {
                assert(checked_lines(body)[k] == linesd[k]);
            }
            assert(parts[parts.len() - 2] == tprefix);
            assert(open_region_of(body) == tprefix + seq!['\n']);
            assert(tprefix + seq!['\n'] =~= tail);
        }
    }
}

} // verus!

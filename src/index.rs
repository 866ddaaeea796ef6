//! Directory listing pages.

use vstd::prelude::*;
use vstd::multiset::*;
use vstd::relations::*;
use vstd::seq_lib::*;
use vstd::string::*;
use vstd::utf8::*;

use crate::http::Content;
use crate::text::{decimal, push_decimal, str_eq};

verus! {

/// A directory entry as a listing shows it: its name, and its size in bytes for a file
/// (none for a directory).
#[derive(Debug)]
pub struct DirEntry {
    pub name: String,
    pub size: Option<u64>,
}

/// An entry's name and size.
pub type EntryView = (Seq<char>, Option<u64>);

impl View for DirEntry {
    type V = EntryView;

    open spec fn view(&self) -> EntryView {
        (self.name@, self.size)
    }
}

pub open spec fn views(es: Seq<DirEntry>) -> Seq<EntryView> {
    es.map_values(|e: DirEntry| e@)
}

/// Whether `x` comes strictly before `y` in byte-wise lexicographic order, the order of
/// Rust's strings.
pub open spec fn lex_lt(x: Seq<u8>, y: Seq<u8>) -> bool
    decreases x.len(),
{
    if x.len() == 0 {
        y.len() > 0
    } else if y.len() == 0 {
        false
    } else if x[0] != y[0] {
        x[0] < y[0]
    } else {
        lex_lt(x.drop_first(), y.drop_first())
    }
}

proof fn lemma_lex_asymmetric(x: Seq<u8>, y: Seq<u8>)
    ensures
        !(lex_lt(x, y) && lex_lt(y, x)),
        !lex_lt(x, x),
    decreases x.len(),
{
    if x.len() > 0 && y.len() > 0 && x[0] == y[0] {
        lemma_lex_asymmetric(x.drop_first(), y.drop_first());
    }
    if x.len() > 0 {
        lemma_lex_asymmetric(x.drop_first(), x.drop_first());
    }
}

proof fn lemma_lex_transitive(x: Seq<u8>, y: Seq<u8>, z: Seq<u8>)
    requires
        lex_lt(x, y),
        lex_lt(y, z),
    ensures
        lex_lt(x, z),
    decreases x.len(),
{
    if x.len() > 0 && x[0] == y[0] && y[0] == z[0] {
        lemma_lex_transitive(x.drop_first(), y.drop_first(), z.drop_first());
    }
}

proof fn lemma_lex_total(x: Seq<u8>, y: Seq<u8>)
    requires
        x != y,
    ensures
        lex_lt(x, y) || lex_lt(y, x),
    decreases x.len(),
{
    if x.len() > 0 && y.len() > 0 && x[0] == y[0] {
        if x.drop_first() == y.drop_first() {
            assert(x =~= seq![x[0]] + x.drop_first());
            assert(y =~= seq![y[0]] + y.drop_first());
        }
        lemma_lex_total(x.drop_first(), y.drop_first());
    } else if x.len() == 0 && y.len() == 0 {
        assert(x =~= y);
    }
}

/// The order of a listing: directories before files, then names in byte-wise order, then
/// sizes (names are unique in a directory, so the sizes only make the order total).
pub open spec fn entry_leq(a: EntryView, b: EntryView) -> bool {
    if (a.1 is None) != (b.1 is None) {
        a.1 is None
    } else if encode_utf8(a.0) != encode_utf8(b.0) {
        lex_lt(encode_utf8(a.0), encode_utf8(b.0))
    } else {
        match (a.1, b.1) {
            (Some(x), Some(y)) => x <= y,
            _ => true,
        }
    }
}

pub open spec fn listing_order() -> spec_fn(EntryView, EntryView) -> bool {
    |a: EntryView, b: EntryView| entry_leq(a, b)
}

proof fn lemma_same_encoding(a: Seq<char>, b: Seq<char>)
    requires
        encode_utf8(a) == encode_utf8(b),
    ensures
        a == b,
{
    encode_utf8_decode_utf8(a);
    encode_utf8_decode_utf8(b);
}

/// The listing order is a total order.
pub proof fn lemma_listing_order_total()
    ensures
        total_ordering(listing_order()),
{
    let leq = listing_order();
    assert forall|a: EntryView, b: EntryView| #[trigger] leq(a, b) && leq(b, a) implies a == b by {
        lemma_lex_asymmetric(encode_utf8(a.0), encode_utf8(b.0));
        if encode_utf8(a.0) == encode_utf8(b.0) {
            lemma_same_encoding(a.0, b.0);
        }
    }
    assert forall|a: EntryView, b: EntryView, c: EntryView|
        #[trigger] leq(a, b) && #[trigger] leq(b, c) implies leq(a, c) by {
        let (x, y, z) = (encode_utf8(a.0), encode_utf8(b.0), encode_utf8(c.0));
        lemma_lex_asymmetric(x, z);
        if lex_lt(x, y) && lex_lt(y, z) {
            lemma_lex_transitive(x, y, z);
        }
    }
    assert forall|a: EntryView, b: EntryView| #[trigger] leq(a, b) || leq(b, a) by {
        if encode_utf8(a.0) != encode_utf8(b.0) {
            lemma_lex_total(encode_utf8(a.0), encode_utf8(b.0));
        }
    }
    assert forall|a: EntryView| #[trigger] leq(a, a) by {
        lemma_lex_asymmetric(encode_utf8(a.0), encode_utf8(a.0));
    }
}

/// Compares two byte strings: negative, zero or positive as `x` comes before, equals
/// or comes after `y`.
fn lex_compare(x: &[u8], y: &[u8]) -> (r: i8)
    ensures
        r < 0 <==> lex_lt(x@, y@),
        r == 0 <==> x@ == y@,
        r > 0 <==> lex_lt(y@, x@),
{
    let mut i: usize = 0;
    proof {
        lemma_lex_asymmetric(x@, y@);
    }
    assert(x@.subrange(0, x@.len() as int) =~= x@);
    assert(y@.subrange(0, y@.len() as int) =~= y@);
    while i < x.len() && i < y.len()
        invariant
            i <= x@.len(),
            i <= y@.len(),
            x@.subrange(0, i as int) == y@.subrange(0, i as int),
            lex_lt(x@, y@) == lex_lt(x@.subrange(i as int, x@.len() as int), y@.subrange(i as int, y@.len() as int)),
            lex_lt(y@, x@) == lex_lt(y@.subrange(i as int, y@.len() as int), x@.subrange(i as int, x@.len() as int)),
        decreases x@.len() - i,
    {
        let ghost xs = x@.subrange(i as int, x@.len() as int);
        let ghost ys = y@.subrange(i as int, y@.len() as int);
        if x[i] != y[i] {
            assert(xs[0] == x@[i as int] && ys[0] == y@[i as int]);
            assert(x@[i as int] != y@[i as int]);
            return if x[i] < y[i] {
                -1
            } else {
                1
            };
        }
        assert(xs.drop_first() =~= x@.subrange(i + 1, x@.len() as int));
        assert(ys.drop_first() =~= y@.subrange(i + 1, y@.len() as int));
        assert(x@.subrange(0, i + 1) =~= x@.subrange(0, i as int).push(x@[i as int]));
        assert(y@.subrange(0, i + 1) =~= y@.subrange(0, i as int).push(y@[i as int]));
        i += 1;
    }
    if x.len() == y.len() {
        assert(x@ =~= x@.subrange(0, i as int));
        assert(y@ =~= y@.subrange(0, i as int));
        0
    } else if x.len() < y.len() {
        assert(x@.len() != y@.len());
        -1
    } else {
        assert(x@.len() != y@.len());
        1
    }
}

/// Whether entry `a` may come before entry `b` in a listing.
fn entry_before(a: &DirEntry, b: &DirEntry) -> (r: bool)
    ensures
        r == entry_leq(a@, b@),
{
    let a_dir = a.size.is_none();
    let b_dir = b.size.is_none();
    if a_dir != b_dir {
        return a_dir;
    }
    let c = lex_compare(a.name.as_str().as_bytes(), b.name.as_str().as_bytes());
    if c != 0 {
        return c < 0;
    }
    match (a.size, b.size) {
        (Some(x), Some(y)) => x <= y,
        _ => true,
    }
}

/// Puts the entries in listing order: directories first, then by name.
pub fn sort_entries(entries: Vec<DirEntry>) -> (r: Vec<DirEntry>)
    ensures
        views(r@) == views(entries@).sort_by(listing_order()),
{
    broadcast use group_to_multiset_ensures;

    let ghost leq = listing_order();
    proof {
        lemma_listing_order_total();
    }
    let ghost all = views(entries@);
    let mut rest = entries;
    let mut sorted: Vec<DirEntry> = Vec::new();
    assert(views(rest@) =~= all);
    while rest.len() > 0
        invariant
            leq == listing_order(),
            total_ordering(leq),
            sorted_by(views(sorted@), leq),
            views(rest@).to_multiset().add(views(sorted@).to_multiset()) == all.to_multiset(),
        decreases rest@.len(),
    {
        let ghost before = rest@;
        let e = rest.pop().unwrap();
        let ghost ev = e@;
        assert(views(before) =~= views(rest@).push(ev));
        let mut pos: usize = 0;
        while pos < sorted.len()
            invariant
                pos <= sorted@.len(),
                forall|k: int| 0 <= k < pos ==> leq(#[trigger] views(sorted@)[k], ev),
                leq == listing_order(),
                ev == e@,
            ensures
                pos <= sorted@.len(),
                forall|k: int| 0 <= k < pos ==> leq(#[trigger] views(sorted@)[k], ev),
                pos < sorted@.len() ==> !leq(views(sorted@)[pos as int], ev),
            decreases sorted@.len() - pos,
        {
            if !entry_before(&sorted[pos], &e) {
                break;
            }
            pos += 1;
        }
        let ghost old_sorted = views(sorted@);
        sorted.insert(pos, e);
        assert(views(sorted@) =~= old_sorted.insert(pos as int, ev));
        proof {
            old_sorted.insert_ensures(pos as int, ev);
            let s = views(sorted@);
            if pos < old_sorted.len() {
                assert(leq(ev, old_sorted[pos as int]));
            }
            assert forall|i: int, j: int| 0 <= i < j < s.len() implies #[trigger] leq(s[i], s[j]) by {
                if j < pos {
                } else if j == pos {
                } else if i < pos {
                    assert(leq(s[i], ev));
                    assert(leq(ev, old_sorted[pos as int]));
                    assert(leq(old_sorted[pos as int], s[j]) || pos as int == j - 1);
                } else if i == pos {
                    assert(leq(ev, old_sorted[pos as int]));
                    assert(leq(old_sorted[pos as int], s[j]) || pos as int == j - 1);
                } else {
                    assert(s[i] == old_sorted[i - 1] && s[j] == old_sorted[j - 1]);
                }
            }
            to_multiset_insert(old_sorted, pos as int, ev);
            views(rest@).to_multiset_ensures();
            assert(views(rest@).push(ev).to_multiset() =~= views(rest@).to_multiset().insert(ev));
            assert(views(before).to_multiset() =~= views(rest@).to_multiset().insert(ev));
        }
    }
    proof {
        assert(views(rest@).to_multiset() =~= Multiset::empty());
        assert(views(sorted@).to_multiset() =~= all.to_multiset());
        all.lemma_sort_by_ensures(leq);
        lemma_sorted_unique(views(sorted@), all.sort_by(leq), leq);
    }
    sorted
}

/// `n` spaces.
pub open spec fn spaces(n: nat) -> Seq<char> {
    Seq::new(n, |_i: int| ' ')
}

/// `s` right-aligned in a field of `width` characters.
pub open spec fn pad_left(s: Seq<char>, width: nat) -> Seq<char> {
    if s.len() < width {
        spaces((width - s.len()) as nat) + s
    } else {
        s
    }
}

/// `value / unit` in tenths, rounded to the nearest, ties to even.
pub open spec fn tenths(value: nat, unit: nat) -> nat {
    let q = value * 10 / unit;
    let r = value * 10 % unit;
    if 2 * r > unit || (2 * r == unit && q % 2 == 1) {
        q + 1
    } else {
        q
    }
}

/// A number of tenths written with one decimal place.
pub open spec fn one_decimal(t: nat) -> Seq<char> {
    decimal(t / 10) + "."@ + decimal(t % 10)
}

pub open spec fn kib() -> nat {
    1024
}

/// A file size as the listing shows it: bytes below one KiB, else KiB, MiB or GiB with
/// one decimal place, the number right-aligned in five characters.
pub open spec fn size_text(b: u64) -> Seq<char> {
    if b < kib() {
        pad_left(decimal(b as nat), 5) + "   B"@
    } else if b < kib() * kib() {
        pad_left(one_decimal(tenths(b as nat, kib())), 5) + " KiB"@
    } else if b < kib() * kib() * kib() {
        pad_left(one_decimal(tenths(b as nat, kib() * kib())), 5) + " MiB"@
    } else {
        pad_left(one_decimal(tenths(b as nat, kib() * kib() * kib())), 5) + " GiB"@
    }
}

fn round_tenths(value: u64, unit: u64) -> (r: u64)
    requires
        unit >= 1024,
    ensures
        r == tenths(value as nat, unit as nat),
{
    let v = value as u128 * 10;
    let u = unit as u128;
    let q = v / u;
    let rem = v % u;
    assert(q <= value as u128) by (nonlinear_arith)
        requires
            q == v / u,
            v == value as u128 * 10,
            u >= 1024,
    ;
    let up = 2 * rem > u || (2 * rem == u && q % 2 == 1);
    let t = if up {
        q + 1
    } else {
        q
    };
    if t > u64::MAX as u128 {
        assert(value as u128 == u64::MAX);
        assert(false) by (nonlinear_arith)
            requires
                q == v / u,
                v == u64::MAX as u128 * 10,
                u >= 1024,
                q + 1 > u64::MAX,
        ;
    }
    t as u64
}

/// Appends `text` to `out`, right-aligned in `width` characters.
fn push_padded(out: &mut String, text: &String, width: usize)
    ensures
        final(out)@ == old(out)@ + pad_left(text@, width as nat),
{
    let len = text.as_str().unicode_len();
    let mut k: usize = len;
    let ghost start = out@;
    while k < width
        invariant
            len == text@.len(),
            len <= k,
            k <= width || len >= width,
            len >= width ==> k == len,
            out@ == start + spaces((k - len) as nat),
        decreases width - k,
    {
        out.append(" ");
        proof {
            reveal_strlit(" ");
        }
        assert(spaces((k - len) as nat).push(' ') =~= spaces((k + 1 - len) as nat));
        k += 1;
    }
    out.append(text.as_str());
    assert(spaces(0) =~= Seq::<char>::empty());
    assert(start + spaces((k - len) as nat) + text@ =~= start + pad_left(text@, width as nat));
}

/// Formats a file size for the listing.
pub fn format_size(bytes: u64) -> (r: String)
    ensures
        r@ == size_text(bytes),
{
    let mut out = String::new();
    let mut num = String::new();
    if bytes < 1024 {
        push_decimal(&mut num, bytes);
        push_padded(&mut out, &num, 5);
        out.append("   B");
        return out;
    }
    let (unit, suffix) = if bytes < 1024 * 1024 {
        (1024u64, " KiB")
    } else if bytes < 1024 * 1024 * 1024 {
        (1024u64 * 1024, " MiB")
    } else {
        (1024u64 * 1024 * 1024, " GiB")
    };
    let t = round_tenths(bytes, unit);
    push_decimal(&mut num, t / 10);
    num.append(".");
    push_decimal(&mut num, t % 10);
    push_padded(&mut out, &num, 5);
    out.append(suffix);
    assert(out@ =~= size_text(bytes));
    out
}

/// The name that the listing shows: a directory's has a trailing slash.
pub open spec fn shown_name(e: EntryView) -> Seq<char> {
    if e.1 is None {
        e.0 + "/"@
    } else {
        e.0
    }
}

/// The link target of an entry: the listed path joined with the name.
pub open spec fn href(rel: Seq<char>, name: Seq<char>) -> Seq<char> {
    if rel.len() == 0 {
        name
    } else if rel.last() == '/' {
        rel + name
    } else {
        rel + "/"@ + name
    }
}

/// One line of the listing, the sizes aligned for names of up to `width` characters.
pub open spec fn row(rel: Seq<char>, e: EntryView, width: nat) -> Seq<char> {
    "<span><a href=\""@ + href(rel, e.0) + "\">"@ + shown_name(e) + "</a>"@ + spaces(
        (width + 1 - shown_name(e).len()) as nat,
    ) + match e.1 {
        Some(n) => size_text(n),
        None => Seq::empty(),
    } + "</span>\n"@
}

pub open spec fn rows(rel: Seq<char>, es: Seq<EntryView>, width: nat) -> Seq<char>
    decreases es.len(),
{
    if es.len() == 0 {
        Seq::empty()
    } else {
        rows(rel, es.drop_last(), width) + row(rel, es.last(), width)
    }
}

/// The length of the longest shown name.
pub open spec fn name_width(es: Seq<EntryView>) -> nat
    decreases es.len(),
{
    if es.len() == 0 {
        0
    } else {
        let w = name_width(es.drop_last());
        let n = shown_name(es.last()).len();
        if n > w {
            n
        } else {
            w
        }
    }
}

pub open spec fn page_head(rel: Seq<char>) -> Seq<char> {
    "<!DOCTYPE html>\n<head>\n\t<meta charset=\"UTF-8\">\n\t<title>Index of "@ + rel
        + "</title>\n\t<style>\n\t\thtml { color-scheme: dark; }\n\t\tspan:nth-child(odd) { background-color: #222; }\n\t\tpre { font-size: 1.8em; }\n\t</style>\n</head>\n<body>\n\t<h3>Index of "@
        + rel + "</h3>\n\t<pre>\n"@
}

/// The link to the parent directory, left out at the root.
pub open spec fn parent_link(rel: Seq<char>) -> Seq<char> {
    if rel == "/"@ {
        Seq::empty()
    } else {
        "<span><a href=\"..\">../</a></span>\n"@
    }
}

/// The listing page of the directory at `rel` with the entries `es`, in that order.
pub open spec fn index_page(rel: Seq<char>, es: Seq<EntryView>) -> Seq<char> {
    page_head(rel) + parent_link(rel) + rows(rel, es, name_width(es)) + "\t</pre>\n</body>\n</html>"@
}

/// The entries of a directory in the order in which its listing shows them.
pub open spec fn listed(entries: Seq<EntryView>) -> Seq<EntryView> {
    entries.sort_by(listing_order())
}

fn push_row(out: &mut String, rel: &str, e: &DirEntry, width: u128)
    requires
        shown_name(e@).len() <= width,
        width <= usize::MAX + 1,
    ensures
        final(out)@ == old(out)@ + row(rel@, e@, width as nat),
{
    let ghost start = out@;
    proof {
        reveal_strlit("/");
    }
    out.append("<span><a href=\"");
    let rel_len = rel.unicode_len();
    if rel_len == 0 {
    } else if rel.get_char(rel_len - 1) == '/' {
        out.append(rel);
    } else {
        out.append(rel);
        out.append("/");
    }
    out.append(e.name.as_str());
    out.append("\">");
    out.append(e.name.as_str());
    let is_dir = e.size.is_none();
    if is_dir {
        out.append("/");
    }
    out.append("</a>");
    let shown = e.name.as_str().unicode_len() as u128 + if is_dir {
        1
    } else {
        0
    };
    let ghost before_spaces = out@;
    let mut k: u128 = 0;
    while k < width + 1 - shown
        invariant
            shown == shown_name(e@).len(),
            shown <= width,
            width <= usize::MAX + 1,
            k <= width + 1 - shown,
            out@ == before_spaces + spaces(k as nat),
        decreases width + 1 - shown - k,
    {
        out.append(" ");
        proof {
            reveal_strlit(" ");
        }
        assert(spaces(k as nat).push(' ') =~= spaces((k + 1) as nat));
        k += 1;
    }
    match e.size {
        Some(n) => {
            let text = format_size(n);
            out.append(text.as_str());
        },
        None => {},
    }
    out.append("</span>\n");
    assert(out@ =~= start + row(rel@, e@, width as nat));
}

/// Renders the listing page of the directory at `relative_path` that holds `entries`.
pub fn generate_index(relative_path: &str, entries: Vec<DirEntry>) -> (r: Content)
    ensures
        r.mime_type@ == "text/html"@,
        r.range is None,
        r.bytes@ == encode_utf8(index_page(relative_path@, listed(views(entries@)))),
{
    let sorted = sort_entries(entries);
    let ghost es = views(sorted@);
    proof {
        reveal_strlit("/");
    }
    let mut width: u128 = 0;
    let mut k: usize = 0;
    while k < sorted.len()
        invariant
            es == views(sorted@),
            k <= sorted@.len(),
            width == name_width(es.subrange(0, k as int)),
            width <= usize::MAX + 1,
        decreases sorted@.len() - k,
    {
        let e = &sorted[k];
        let n = e.name.as_str().unicode_len() as u128 + if e.size.is_none() {
            1
        } else {
            0
        };
        assert(es.subrange(0, k + 1).drop_last() =~= es.subrange(0, k as int));
        proof {
            reveal_strlit("/");
        }
        assert(es[k as int] == e@);
        assert(es.subrange(0, k + 1).last() == es[k as int]);
        assert(n == shown_name(e@).len());
        if n > width {
            width = n;
        }
        k += 1;
    }
    assert(es.subrange(0, k as int) =~= es);
    let mut page = String::from_str(
        "<!DOCTYPE html>\n<head>\n\t<meta charset=\"UTF-8\">\n\t<title>Index of ",
    );
    page.append(relative_path);
    page.append(
        "</title>\n\t<style>\n\t\thtml { color-scheme: dark; }\n\t\tspan:nth-child(odd) { background-color: #222; }\n\t\tpre { font-size: 1.8em; }\n\t</style>\n</head>\n<body>\n\t<h3>Index of ",
    );
    page.append(relative_path);
    page.append("</h3>\n\t<pre>\n");
    if !str_eq(relative_path, "/") {
        page.append("<span><a href=\"..\">../</a></span>\n");
    }
    let ghost top = page@;
    assert(top =~= page_head(relative_path@) + parent_link(relative_path@));
    let mut k: usize = 0;
    assert(rows(relative_path@, es.subrange(0, 0), width as nat) =~= Seq::<char>::empty());
    while k < sorted.len()
        invariant
            es == views(sorted@),
            k <= sorted@.len(),
            width == name_width(es),
            width <= usize::MAX + 1,
            page@ == top + rows(relative_path@, es.subrange(0, k as int), width as nat),
        decreases sorted@.len() - k,
    {
        proof {
            lemma_name_width_bounds(es, k as int);
        }
        assert(es[k as int] == sorted@[k as int]@);
        push_row(&mut page, relative_path, &sorted[k], width);
        assert(es.subrange(0, k + 1).drop_last() =~= es.subrange(0, k as int));
        k += 1;
    }
    assert(es.subrange(0, k as int) =~= es);
    page.append("\t</pre>\n</body>\n</html>");
    assert(page@ =~= index_page(relative_path@, es));
    Content::html(page)
}

proof fn lemma_name_width_bounds(es: Seq<EntryView>, k: int)
    requires
        0 <= k < es.len(),
    ensures
        shown_name(es[k]).len() <= name_width(es),
    decreases es.len(),
{
    if k < es.len() - 1 {
        lemma_name_width_bounds(es.drop_last(), k);
    }
}

/// A listing depends on which entries the directory holds and not on the order in
/// which they were read, and it shows directories before files and each group by name.
pub proof fn lemma_listing_deterministic(rel: Seq<char>, a: Seq<EntryView>, b: Seq<EntryView>)
    requires
        a.to_multiset() == b.to_multiset(),
    ensures
        index_page(rel, listed(a)) == index_page(rel, listed(b)),
        forall|i: int, j: int|
            0 <= i < j < listed(a).len() ==> {
                let (x, y) = (#[trigger] listed(a)[i], #[trigger] listed(a)[j]);
                &&& (x.1 is Some ==> y.1 is Some)
                &&& ((x.1 is None) == (y.1 is None) ==> !lex_lt(encode_utf8(y.0), encode_utf8(x.0)))
            },
{
    let leq = listing_order();
    lemma_listing_order_total();
    a.lemma_sort_by_ensures(leq);
    b.lemma_sort_by_ensures(leq);
    lemma_sorted_unique(listed(a), listed(b), leq);
    assert forall|i: int, j: int| 0 <= i < j < listed(a).len() implies {
        let (x, y) = (#[trigger] listed(a)[i], #[trigger] listed(a)[j]);
        &&& (x.1 is Some ==> y.1 is Some)
        &&& ((x.1 is None) == (y.1 is None) ==> !lex_lt(encode_utf8(y.0), encode_utf8(x.0)))
    } by {
        let (x, y) = (listed(a)[i], listed(a)[j]);
        assert(leq(x, y));
        lemma_lex_asymmetric(encode_utf8(x.0), encode_utf8(y.0));
    }
}

} // verus!

//! The SQL statement behind a catalog search.
//!
//! A statement is modelled as a list of pieces: literal text and parameter
//! slots. Rendering writes the k-th slot as `?k` and collects the slots'
//! values, in order, as the statement's parameters, so placeholders and
//! parameters always line up.

use vstd::prelude::*;
use vstd::string::*;
use crate::models::{Flag, FlagSelection, RatingFilter, SearchQuery, SortField, TagMatch, selection_codes, selection_count, selection_allows, flag_code};
use crate::paths::{descendant_like_prefix_with, descendant_pattern, main_separator};
use crate::text::{
    chars_of, lowercase, nat_text, nat_to_text, push_chars, push_str, string_of, to_lowercase,
    trim_spec, trim_start_char, trim_start_matches_char, trim_chars,
};
use crate::thumbnail_queue::strings_view;

verus! {

/// A value bound to a statement parameter.
#[derive(Debug)]
pub enum SqlParam {
    Text(String),
    Int(i64),
}

/// The mathematical value of a parameter.
pub enum ParamView {
    Text(Seq<char>),
    Int(int),
}

impl View for SqlParam {
    type V = ParamView;

    open spec fn view(&self) -> ParamView {
        match self {
            SqlParam::Text(s) => ParamView::Text(s@),
            SqlParam::Int(v) => ParamView::Int(*v as int),
        }
    }
}

/// One piece of a statement: literal text, or a parameter slot.
pub enum SqlPiece {
    Lit(String),
    Slot(SqlParam),
}

/// The mathematical value of a statement piece.
pub enum Piece {
    Lit(Seq<char>),
    Slot(ParamView),
}

impl View for SqlPiece {
    type V = Piece;

    open spec fn view(&self) -> Piece {
        match self {
            SqlPiece::Lit(s) => Piece::Lit(s@),
            SqlPiece::Slot(p) => Piece::Slot(p@),
        }
    }
}

/// Values of a list of pieces.
pub open spec fn pieces_view(v: Seq<SqlPiece>) -> Seq<Piece> {
    v.map_values(|p: SqlPiece| p@)
}

/// Values of a list of parameters.
pub open spec fn params_view(v: Seq<SqlParam>) -> Seq<ParamView> {
    v.map_values(|p: SqlParam| p@)
}

/// The values of the slots, in order.
pub open spec fn slot_values(ps: Seq<Piece>) -> Seq<ParamView>
    decreases ps.len(),
{
    if ps.len() == 0 {
        Seq::empty()
    } else {
        match ps.last() {
            Piece::Slot(v) => slot_values(ps.drop_last()).push(v),
            Piece::Lit(_) => slot_values(ps.drop_last()),
        }
    }
}

/// The text of a piece; a slot is written `?` and its 1-based number.
pub open spec fn piece_text(p: Piece, number: nat) -> Seq<char> {
    match p {
        Piece::Lit(s) => s,
        Piece::Slot(_) => seq!['?'] + nat_text(number),
    }
}

/// The statement text: the pieces' texts in order, slots numbered from 1.
pub open spec fn render(ps: Seq<Piece>) -> Seq<char>
    decreases ps.len(),
{
    if ps.len() == 0 {
        Seq::empty()
    } else {
        render(ps.drop_last()) + piece_text(ps.last(), slot_values(ps.drop_last()).len() + 1)
    }
}

/// A statement and its parameters, in placeholder order.
pub struct SearchSql {
    pub sql: String,
    pub params: Vec<SqlParam>,
}

proof fn lemma_slot_values_len(ps: Seq<Piece>)
    ensures
        slot_values(ps).len() <= ps.len(),
    decreases ps.len(),
{
    if ps.len() > 0 {
        lemma_slot_values_len(ps.drop_last());
    }
}

fn copy_param(p: &SqlParam) -> (q: SqlParam)
    ensures
        q@ == p@,
{
    match p {
        SqlParam::Text(s) => SqlParam::Text(s.clone()),
        SqlParam::Int(v) => SqlParam::Int(*v),
    }
}

/// Renders the pieces: the statement text and the slots' values.
pub fn render_pieces(ps: &Vec<SqlPiece>) -> (r: SearchSql)
    ensures
        r.sql@ == render(pieces_view(ps@)),
        params_view(r.params@) == slot_values(pieces_view(ps@)),
{
    let ghost pv = pieces_view(ps@);
    let mut text: Vec<char> = Vec::new();
    let mut params: Vec<SqlParam> = Vec::new();
    let mut k: usize = 0;
    while k < ps.len()
        invariant
            k <= ps@.len(),
            pv == pieces_view(ps@),
            text@ == render(pv.take(k as int)),
            params_view(params@) == slot_values(pv.take(k as int)),
        decreases ps@.len() - k,
    {
        let ghost before = pv.take(k as int);
        proof {
            assert(pv.take(k + 1).drop_last() =~= before);
            assert(pv.take(k + 1).last() == ps@[k as int]@);
            lemma_slot_values_len(before);
        }
        match &ps[k] {
            SqlPiece::Lit(s) => {
                push_str(&mut text, s.as_str());
            },
            SqlPiece::Slot(p) => {
                let number: usize = params.len() + 1;
                text.push('?');
                let digits = nat_to_text(number as u64);
                push_chars(&mut text, &digits);
                let q = copy_param(p);
                let ghost old_params = params@;
                params.push(q);
                proof {
                    assert(params_view(params@) =~= params_view(old_params).push(q@));
                    assert(text@ =~= render(before) + (seq!['?'] + nat_text(number as nat)));
                }
            },
        }
        k = k + 1;
    }
    proof {
        assert(pv.take(ps@.len() as int) =~= pv);
    }
    SearchSql { sql: string_of(&text), params }
}


// ---------------------------------------------------------------------------
// Building blocks
// ---------------------------------------------------------------------------

/// A literal piece.
pub open spec fn lit(s: Seq<char>) -> Piece {
    Piece::Lit(s)
}

/// A text slot.
pub open spec fn text_slot(s: Seq<char>) -> Piece {
    Piece::Slot(ParamView::Text(s))
}

/// An integer slot.
pub open spec fn int_slot(v: int) -> Piece {
    Piece::Slot(ParamView::Int(v))
}

/// Text values.
pub open spec fn texts(ss: Seq<Seq<char>>) -> Seq<ParamView> {
    ss.map_values(|s: Seq<char>| ParamView::Text(s))
}

/// Integer values.
pub open spec fn ints(vs: Seq<i64>) -> Seq<ParamView> {
    vs.map_values(|v: i64| ParamView::Int(v as int))
}

/// One slot per value, separated by commas.
pub open spec fn slot_list(vs: Seq<ParamView>) -> Seq<Piece>
    decreases vs.len(),
{
    if vs.len() == 0 {
        Seq::empty()
    } else if vs.len() == 1 {
        seq![Piece::Slot(vs[0])]
    } else {
        slot_list(vs.drop_last()).push(lit(","@)).push(Piece::Slot(vs.last()))
    }
}

/// `slot_list` wrapped in `prefix` and a closing parenthesis.
pub open spec fn in_list(prefix: Seq<char>, vs: Seq<ParamView>) -> Seq<Piece> {
    seq![lit(prefix)] + slot_list(vs) + seq![lit(")"@)]
}

fn push_lit(v: &mut Vec<SqlPiece>, s: &str)
    ensures
        pieces_view(final(v)@) == pieces_view(old(v)@).push(lit(s@)),
{
    v.push(SqlPiece::Lit(String::from_str(s)));
    proof {
        assert(pieces_view(v@) =~= pieces_view(old(v)@).push(lit(s@)));
    }
}

fn push_slot(v: &mut Vec<SqlPiece>, p: SqlParam)
    ensures
        pieces_view(final(v)@) == pieces_view(old(v)@).push(Piece::Slot(p@)),
{
    let ghost pv = p@;
    v.push(SqlPiece::Slot(p));
    proof {
        assert(pieces_view(v@) =~= pieces_view(old(v)@).push(Piece::Slot(pv)));
    }
}

fn push_slot_list(v: &mut Vec<SqlPiece>, ps: &Vec<SqlParam>)
    ensures
        pieces_view(final(v)@) == pieces_view(old(v)@) + slot_list(params_view(ps@)),
{
    let ghost start = pieces_view(v@);
    let ghost vs = params_view(ps@);
    let mut k: usize = 0;
    while k < ps.len()
        invariant
            k <= ps@.len(),
            vs == params_view(ps@),
            pieces_view(v@) == start + slot_list(vs.take(k as int)),
        decreases ps@.len() - k,
    {
        if k > 0 {
            push_lit(v, ",");
        }
        let q = copy_param(&ps[k]);
        push_slot(v, q);
        proof {
            let t = vs.take(k + 1);
            assert(t.drop_last() =~= vs.take(k as int));
            assert(t.last() == vs[k as int]);
            if k == 0 {
                assert(slot_list(t) =~= seq![Piece::Slot(vs[0])]);
                assert(slot_list(vs.take(0)) =~= Seq::<Piece>::empty());
            }
            assert(pieces_view(v@) =~= start + slot_list(t));
        }
        k = k + 1;
    }
    proof {
        assert(vs.take(ps@.len() as int) =~= vs);
    }
}

/// Appends `prefix`, the slots, and a closing parenthesis.
fn push_in_list(v: &mut Vec<SqlPiece>, prefix: &str, ps: &Vec<SqlParam>)
    ensures
        pieces_view(final(v)@) == pieces_view(old(v)@) + in_list(prefix@, params_view(ps@)),
{
    let ghost start = pieces_view(v@);
    push_lit(v, prefix);
    push_slot_list(v, ps);
    push_lit(v, ")");
    proof {
        assert(pieces_view(v@) =~= start + in_list(prefix@, params_view(ps@)));
    }
}

fn text_params(xs: &Vec<String>) -> (r: Vec<SqlParam>)
    ensures
        params_view(r@) == texts(strings_view(xs@)),
{
    let mut r: Vec<SqlParam> = Vec::new();
    let mut k: usize = 0;
    while k < xs.len()
        invariant
            k <= xs@.len(),
            params_view(r@) == texts(strings_view(xs@.take(k as int))),
        decreases xs@.len() - k,
    {
        let ghost before = r@;
        let x = xs[k].clone();
        assert(x@ == xs@[k as int]@);
        r.push(SqlParam::Text(x));
        proof {
            assert(params_view(r@) =~= params_view(before).push(ParamView::Text(xs@[k as int]@)));
            assert(strings_view(xs@.take(k + 1)) =~= strings_view(xs@.take(k as int)).push(xs@[k as int]@));
            assert(texts(strings_view(xs@.take(k + 1))) =~= texts(strings_view(xs@.take(k as int))).push(
                ParamView::Text(xs@[k as int]@),
            ));
        }
        k = k + 1;
    }
    proof {
        assert(xs@.take(xs@.len() as int) =~= xs@);
    }
    r
}

fn int_params(xs: &Vec<i64>) -> (r: Vec<SqlParam>)
    ensures
        params_view(r@) == ints(xs@),
{
    let mut r: Vec<SqlParam> = Vec::new();
    let mut k: usize = 0;
    while k < xs.len()
        invariant
            k <= xs@.len(),
            params_view(r@) == ints(xs@.take(k as int)),
        decreases xs@.len() - k,
    {
        let ghost before = r@;
        r.push(SqlParam::Int(xs[k]));
        proof {
            assert(params_view(r@) =~= params_view(before).push(ParamView::Int(xs@[k as int] as int)));
            assert(ints(xs@.take(k + 1)) =~= ints(xs@.take(k as int)).push(ParamView::Int(xs@[k as int] as int)));
        }
        k = k + 1;
    }
    proof {
        assert(xs@.take(xs@.len() as int) =~= xs@);
    }
    r
}


// ---------------------------------------------------------------------------
// Tag filters
// ---------------------------------------------------------------------------

/// The `LIKE` escape of one character: `\`, `%` and `_` get a backslash.
pub open spec fn like_escape_char(c: char) -> Seq<char> {
    if c == '\\' || c == '%' || c == '_' {
        seq!['\\', c]
    } else {
        seq![c]
    }
}

/// `t` with every `\`, `%` and `_` escaped for `LIKE ... ESCAPE '\'`.
pub open spec fn like_escape(t: Seq<char>) -> Seq<char>
    decreases t.len(),
{
    if t.len() == 0 {
        Seq::empty()
    } else {
        like_escape(t.drop_last()) + like_escape_char(t.last())
    }
}

/// Matches the tag itself or any tag below it in the hierarchy.
pub open spec fn tag_cond(t: Seq<char>) -> Seq<Piece> {
    seq![
        lit("(tg.tag = "@),
        text_slot(t),
        lit(" OR tg.tag LIKE "@),
        text_slot(like_escape(t) + "/%"@),
        lit(" ESCAPE '\\')"@),
    ]
}

/// The tag conditions of `ts`, joined by `OR`.
pub open spec fn or_conds(ts: Seq<Seq<char>>) -> Seq<Piece>
    decreases ts.len(),
{
    if ts.len() == 0 {
        Seq::empty()
    } else if ts.len() == 1 {
        tag_cond(ts[0])
    } else {
        or_conds(ts.drop_last()).push(lit(" OR "@)) + tag_cond(ts.last())
    }
}

/// One `EXISTS` filter per tag: every tag must match.
pub open spec fn all_tags(ts: Seq<Seq<char>>) -> Seq<Piece>
    decreases ts.len(),
{
    if ts.len() == 0 {
        Seq::empty()
    } else {
        all_tags(ts.drop_last()) + (seq![lit(" AND EXISTS (SELECT 1 FROM tags tg WHERE tg.file_id = f.id AND "@)]
            + tag_cond(ts.last()) + seq![lit(")"@)])
    }
}

/// The include and exclude tag filters of a query.
pub open spec fn tag_pieces(q: SearchQuery) -> Seq<Piece> {
    let inc = strings_view(q.tags@);
    let exc = strings_view(q.exclude_tags@);
    (if inc.len() == 0 {
        Seq::empty()
    } else {
        match q.tag_match {
            TagMatch::All => all_tags(inc),
            TagMatch::Any => seq![lit(" AND EXISTS (SELECT 1 FROM tags tg WHERE tg.file_id = f.id AND ("@)]
                + or_conds(inc) + seq![lit("))"@)],
        }
    }) + (if exc.len() == 0 {
        Seq::empty()
    } else {
        seq![lit(" AND NOT EXISTS (SELECT 1 FROM tags tg WHERE tg.file_id = f.id AND ("@)] + or_conds(exc)
            + seq![lit("))"@)]
    })
}

/// The `LIKE` pattern for the tags below `t`.
fn like_pattern(t: &String) -> (r: String)
    ensures
        r@ == like_escape(t@) + "/%"@,
{
    let c = chars_of(t.as_str());
    let mut out: Vec<char> = Vec::new();
    let mut k: usize = 0;
    while k < c.len()
        invariant
            k <= c@.len(),
            c@ == t@,
            out@ == like_escape(c@.take(k as int)),
        decreases c@.len() - k,
    {
        let ch = c[k];
        if ch == '\\' || ch == '%' || ch == '_' {
            out.push('\\');
        }
        out.push(ch);
        proof {
            assert(c@.take(k + 1).drop_last() =~= c@.take(k as int));
            assert(out@ =~= like_escape(c@.take(k as int)) + like_escape_char(ch));
        }
        k = k + 1;
    }
    proof {
        assert(c@.take(c@.len() as int) =~= c@);
    }
    push_str(&mut out, "/%");
    string_of(&out)
}

fn push_tag_cond(v: &mut Vec<SqlPiece>, t: &String)
    ensures
        pieces_view(final(v)@) == pieces_view(old(v)@) + tag_cond(t@),
{
    let ghost start = pieces_view(v@);
    push_lit(v, "(tg.tag = ");
    push_slot(v, SqlParam::Text(t.clone()));
    push_lit(v, " OR tg.tag LIKE ");
    push_slot(v, SqlParam::Text(like_pattern(t)));
    push_lit(v, " ESCAPE '\\')");
    proof {
        assert(pieces_view(v@) =~= start + tag_cond(t@));
    }
}

fn push_or_conds(v: &mut Vec<SqlPiece>, ts: &Vec<String>)
    ensures
        pieces_view(final(v)@) == pieces_view(old(v)@) + or_conds(strings_view(ts@)),
{
    let ghost start = pieces_view(v@);
    let ghost sv = strings_view(ts@);
    let mut k: usize = 0;
    while k < ts.len()
        invariant
            k <= ts@.len(),
            sv == strings_view(ts@),
            pieces_view(v@) == start + or_conds(sv.take(k as int)),
        decreases ts@.len() - k,
    {
        if k > 0 {
            push_lit(v, " OR ");
        }
        push_tag_cond(v, &ts[k]);
        proof {
            let t = sv.take(k + 1);
            assert(t.drop_last() =~= sv.take(k as int));
            assert(t.last() == ts@[k as int]@);
            if k == 0 {
                assert(or_conds(sv.take(0)) =~= Seq::<Piece>::empty());
                assert(or_conds(t) == tag_cond(t[0]));
            }
            assert(pieces_view(v@) =~= start + or_conds(t));
        }
        k = k + 1;
    }
    proof {
        assert(sv.take(ts@.len() as int) =~= sv);
    }
}

fn push_all_tags(v: &mut Vec<SqlPiece>, ts: &Vec<String>)
    ensures
        pieces_view(final(v)@) == pieces_view(old(v)@) + all_tags(strings_view(ts@)),
{
    let ghost start = pieces_view(v@);
    let ghost sv = strings_view(ts@);
    let mut k: usize = 0;
    while k < ts.len()
        invariant
            k <= ts@.len(),
            sv == strings_view(ts@),
            pieces_view(v@) == start + all_tags(sv.take(k as int)),
        decreases ts@.len() - k,
    {
        push_lit(v, " AND EXISTS (SELECT 1 FROM tags tg WHERE tg.file_id = f.id AND ");
        push_tag_cond(v, &ts[k]);
        push_lit(v, ")");
        proof {
            let t = sv.take(k + 1);
            assert(t.drop_last() =~= sv.take(k as int));
            assert(t.last() == ts@[k as int]@);
            assert(pieces_view(v@) =~= start + all_tags(t));
        }
        k = k + 1;
    }
    proof {
        assert(sv.take(ts@.len() as int) =~= sv);
    }
}

fn push_tag_filters(v: &mut Vec<SqlPiece>, q: &SearchQuery)
    ensures
        pieces_view(final(v)@) == pieces_view(old(v)@) + tag_pieces(*q),
{
    let ghost start = pieces_view(v@);
    if q.tags.len() > 0 {
        match q.tag_match {
            TagMatch::All => {
                push_all_tags(v, &q.tags);
            },
            TagMatch::Any => {
                push_lit(v, " AND EXISTS (SELECT 1 FROM tags tg WHERE tg.file_id = f.id AND (");
                push_or_conds(v, &q.tags);
                push_lit(v, "))");
            },
        }
    }
    if q.exclude_tags.len() > 0 {
        push_lit(v, " AND NOT EXISTS (SELECT 1 FROM tags tg WHERE tg.file_id = f.id AND (");
        push_or_conds(v, &q.exclude_tags);
        push_lit(v, "))");
    }
    proof {
        assert(pieces_view(v@) =~= start + tag_pieces(*q));
    }
}


// ---------------------------------------------------------------------------
// The other clauses
// ---------------------------------------------------------------------------

/// The column a sort field orders by.
pub open spec fn sort_column_spec(f: SortField) -> Seq<char> {
    match f {
        SortField::Name => "f.filename"@,
        SortField::Date => "f.exif_date_unix"@,
        SortField::Size => "f.size"@,
        SortField::Ext => "f.extension"@,
    }
}

/// The column a sort field orders by.
pub fn sort_column(f: SortField) -> (r: &'static str)
    ensures
        r@ == sort_column_spec(f),
{
    match f {
        SortField::Name => "f.filename",
        SortField::Date => "f.exif_date_unix",
        SortField::Size => "f.size",
        SortField::Ext => "f.extension",
    }
}

/// `SELECT` with the file columns, from the files or from one album's files.
pub open spec fn select_pieces(album: Option<Seq<char>>, cols: Seq<char>) -> Seq<Piece> {
    seq![
        lit("SELECT "@),
        lit(cols),
        lit(
            if album is Some {
                " FROM files f JOIN album_files af ON f.id = af.file_id"@
            } else {
                " FROM files f"@
            },
        ),
    ]
}

/// The metadata join that a rating filter needs.
pub open spec fn meta_pieces(q: SearchQuery) -> Seq<Piece> {
    if q.rating is Any {
        Seq::empty()
    } else {
        seq![lit(" LEFT JOIN metadata m ON f.id = m.file_id"@)]
    }
}

/// The album restriction, or the orphan filter.
pub open spec fn scope_pieces(album: Option<Seq<char>>, q: SearchQuery) -> Seq<Piece> {
    match album {
        Some(a) => seq![lit(" WHERE af.album_id = "@), text_slot(a), lit(" AND f.is_orphaned = 0"@)],
        None => if q.include_orphaned {
            seq![lit(" WHERE 1=1"@)]
        } else {
            seq![lit(" WHERE f.is_orphaned = 0"@)]
        },
    }
}

/// The deleted view shows only deleted files; every other view excludes them.
pub open spec fn deleted_pieces(q: SearchQuery) -> Seq<Piece> {
    if q.only_deleted {
        seq![lit(" AND f.is_deleted = 1"@)]
    } else {
        seq![lit(" AND f.is_deleted = 0"@)]
    }
}

/// The import batch restriction.
pub open spec fn batch_pieces(q: SearchQuery) -> Seq<Piece> {
    match q.import_batch {
        Some(b) => seq![lit(" AND f.import_batch_id = "@), int_slot(b as int)],
        None => Seq::empty(),
    }
}

/// One representative, the sharpest frame, per stack; expanded stacks keep
/// all their members.
pub open spec fn collapse_pieces(q: SearchQuery) -> Seq<Piece> {
    let ex = strings_view(q.expanded_bursts@);
    if q.collapse_bursts {
        seq![
            lit(
                " AND (f.burst_id IS NULL OR f.id = (SELECT b.id FROM files b WHERE b.burst_id = f.burst_id AND b.is_deleted = 0 ORDER BY b.phash_sharpness DESC, b.exif_date_unix, b.id LIMIT 1)"@,
            ),
        ] + (if ex.len() == 0 {
            Seq::empty()
        } else {
            in_list(" OR f.burst_id IN ("@, texts(ex))
        }) + seq![lit(")"@)]
    } else {
        Seq::empty()
    }
}

/// The full-text matches, when a text search ran.
pub open spec fn fts_pieces(fts: Option<Seq<Seq<char>>>) -> Seq<Piece> {
    match fts {
        Some(ids) => in_list(" AND f.id IN ("@, texts(ids)),
        None => Seq::empty(),
    }
}

/// The folder filter (outside albums): the folder itself, and with
/// `recursive` every folder below it.
pub open spec fn folder_pieces(album: Option<Seq<char>>, q: SearchQuery, sep: char) -> Seq<Piece> {
    match q.folder_path {
        Some(p) => if album is None && trim_spec(p@).len() > 0 {
            if q.folder_recursive {
                seq![
                    lit(" AND (f.folder = "@),
                    text_slot(p@),
                    lit(" OR f.folder LIKE "@),
                    text_slot(descendant_pattern(p@, sep)),
                    lit(")"@),
                ]
            } else {
                seq![lit(" AND f.folder = "@), text_slot(p@)]
            }
        } else {
            Seq::empty()
        },
        None => Seq::empty(),
    }
}

/// An extension as stored: without leading dots, in lower case.
pub open spec fn ext_values(es: Seq<Seq<char>>) -> Seq<ParamView> {
    es.map_values(|e: Seq<char>| ParamView::Text(lowercase(trim_start_char(e, '.'))))
}

/// The extension filter.
pub open spec fn ext_pieces(q: SearchQuery) -> Seq<Piece> {
    let es = strings_view(q.extensions@);
    if es.len() == 0 {
        Seq::empty()
    } else {
        in_list(" AND f.extension IN ("@, ext_values(es))
    }
}

/// The modification-time range.
pub open spec fn date_pieces(q: SearchQuery) -> Seq<Piece> {
    (match q.date_from {
        Some(d) => seq![lit(" AND f.modified_time >= "@), int_slot(d as int)],
        None => Seq::empty(),
    }) + (match q.date_to {
        Some(d) => seq![lit(" AND f.modified_time <= "@), int_slot(d as int)],
        None => Seq::empty(),
    })
}

/// The flag filter: nothing when every flag or none is selected.
pub open spec fn flag_pieces(s: FlagSelection) -> Seq<Piece> {
    if selection_count(s) == 0 || selection_count(s) == 3 {
        Seq::empty()
    } else if selection_codes(s).len() == 0 {
        seq![lit(" AND 1 = 0"@)]
    } else {
        in_list(" AND f.flag IN ("@, ints(selection_codes(s)))
    }
}

/// The rating filter; a missing rating counts as 0.
pub open spec fn rating_pieces(r: RatingFilter) -> Seq<Piece> {
    match r {
        RatingFilter::Any => Seq::empty(),
        RatingFilter::Unrated => seq![lit(" AND COALESCE(m.rating, 0) = "@), int_slot(0)],
        RatingFilter::AtLeast(n) => seq![lit(" AND COALESCE(m.rating, 0) >= "@), int_slot(n as int)],
        RatingFilter::Exactly(n) => seq![lit(" AND COALESCE(m.rating, 0) = "@), int_slot(n as int)],
        RatingFilter::AtMost(n) => seq![lit(" AND COALESCE(m.rating, 0) <= "@), int_slot(n as int)],
    }
}

/// The face and location presence filters.
pub open spec fn presence_pieces(q: SearchQuery) -> Seq<Piece> {
    (match q.has_faces {
        Some(true) => seq![lit(" AND EXISTS (SELECT 1 FROM face_clusters fc WHERE fc.file_id = f.id)"@)],
        Some(false) => seq![lit(" AND NOT EXISTS (SELECT 1 FROM face_clusters fc WHERE fc.file_id = f.id)"@)],
        None => Seq::empty(),
    }) + (match q.has_location {
        Some(true) => seq![lit(" AND f.gps_lat IS NOT NULL"@)],
        Some(false) => seq![lit(" AND f.gps_lat IS NULL"@)],
        None => Seq::empty(),
    })
}

/// The earliest catalog time a file added within `days` days of `now` has.
pub open spec fn added_cutoff(now: int, days: int) -> int {
    now - days * 86400
}

/// The person, recency, camera and colour-label filters.
pub open spec fn detail_pieces(q: SearchQuery, now: int) -> Seq<Piece> {
    (match q.person_cluster {
        Some(c) => seq![
            lit(" AND f.id IN (SELECT file_id FROM face_clusters WHERE cluster_id = "@),
            text_slot(c@),
            lit(")"@),
        ],
        None => Seq::empty(),
    }) + (match q.added_within_days {
        Some(d) => seq![lit(" AND f.created_at_unix >= "@), int_slot(added_cutoff(now, d as int))],
        None => Seq::empty(),
    }) + (match q.camera_model {
        Some(c) => seq![
            lit(" AND f.id IN (SELECT file_id FROM metadata WHERE camera_model = "@),
            text_slot(c@),
            lit(")"@),
        ],
        None => Seq::empty(),
    }) + (match q.color_label {
        Some(c) => seq![
            lit(" AND f.id IN (SELECT file_id FROM metadata WHERE label = "@),
            text_slot(c@),
            lit(")"@),
        ],
        None => Seq::empty(),
    })
}

/// The ordering: the sort column (case-insensitive for names and types, dates
/// without a value last), then the file id as a stable tiebreaker.
pub open spec fn order_pieces(q: SearchQuery) -> Seq<Piece> {
    seq![
        lit(" ORDER BY "@),
        lit(sort_column_spec(q.sort_by)),
        lit(
            if q.sort_by == SortField::Name || q.sort_by == SortField::Ext {
                " COLLATE NOCASE"@
            } else {
                ""@
            },
        ),
        lit(" "@),
        lit(
            if q.sort_asc {
                "ASC"@
            } else {
                "DESC"@
            },
        ),
        lit(
            if q.sort_by == SortField::Date {
                " NULLS LAST"@
            } else {
                ""@
            },
        ),
        lit(", f.id ASC"@),
    ]
}

/// The pieces of a search statement, clause by clause.
pub open spec fn search_pieces(
    album: Option<Seq<char>>,
    q: SearchQuery,
    fts: Option<Seq<Seq<char>>>,
    cols: Seq<char>,
    now: int,
    sep: char,
) -> Seq<Piece> {
    select_pieces(album, cols) + meta_pieces(q) + scope_pieces(album, q) + deleted_pieces(q)
        + tag_pieces(q) + batch_pieces(q) + collapse_pieces(q) + fts_pieces(fts) + folder_pieces(
        album,
        q,
        sep,
    ) + ext_pieces(q) + date_pieces(q) + flag_pieces(q.flags) + rating_pieces(q.rating)
        + presence_pieces(q) + detail_pieces(q, now) + order_pieces(q)
}

/// The value of an optional album id.
pub open spec fn album_view(a: Option<&String>) -> Option<Seq<char>> {
    match a {
        Some(s) => Some(s@),
        None => None,
    }
}

/// The value of an optional list of full-text matches.
pub open spec fn fts_view(ids: Option<&Vec<String>>) -> Option<Seq<Seq<char>>> {
    match ids {
        Some(v) => Some(strings_view(v@)),
        None => None,
    }
}

/// Whether the recency cutoff of `q`, and the span it subtracts, fit in an
/// `i64`.
pub open spec fn cutoff_fits(q: SearchQuery, now: int) -> bool {
    q.added_within_days matches Some(d) ==> (i64::MIN <= d * 86400 <= i64::MAX && i64::MIN
        <= added_cutoff(now, d as int) <= i64::MAX)
}


// ---------------------------------------------------------------------------
// Building the statement
// ---------------------------------------------------------------------------

fn push_scope(v: &mut Vec<SqlPiece>, album: Option<&String>, q: &SearchQuery)
    ensures
        pieces_view(final(v)@) == pieces_view(old(v)@) + scope_pieces(album_view(album), *q),
{
    let ghost start = pieces_view(v@);
    match album {
        Some(a) => {
            push_lit(v, " WHERE af.album_id = ");
            push_slot(v, SqlParam::Text(a.clone()));
            push_lit(v, " AND f.is_orphaned = 0");
        },
        None => {
            if q.include_orphaned {
                push_lit(v, " WHERE 1=1");
            } else {
                push_lit(v, " WHERE f.is_orphaned = 0");
            }
        },
    }
    proof {
        assert(pieces_view(v@) =~= start + scope_pieces(album_view(album), *q));
    }
}

fn push_collapse(v: &mut Vec<SqlPiece>, q: &SearchQuery)
    ensures
        pieces_view(final(v)@) == pieces_view(old(v)@) + collapse_pieces(*q),
{
    let ghost start = pieces_view(v@);
    if q.collapse_bursts {
        push_lit(
            v,
            " AND (f.burst_id IS NULL OR f.id = (SELECT b.id FROM files b WHERE b.burst_id = f.burst_id AND b.is_deleted = 0 ORDER BY b.phash_sharpness DESC, b.exif_date_unix, b.id LIMIT 1)",
        );
        if q.expanded_bursts.len() > 0 {
            let ps = text_params(&q.expanded_bursts);
            push_in_list(v, " OR f.burst_id IN (", &ps);
        }
        push_lit(v, ")");
    }
    proof {
        assert(pieces_view(v@) =~= start + collapse_pieces(*q));
    }
}

fn push_fts(v: &mut Vec<SqlPiece>, fts_ids: Option<&Vec<String>>)
    ensures
        pieces_view(final(v)@) == pieces_view(old(v)@) + fts_pieces(fts_view(fts_ids)),
{
    let ghost start = pieces_view(v@);
    if let Some(ids) = fts_ids {
        let ps = text_params(ids);
        push_in_list(v, " AND f.id IN (", &ps);
    }
    proof {
        assert(pieces_view(v@) =~= start + fts_pieces(fts_view(fts_ids)));
    }
}

fn push_folder(v: &mut Vec<SqlPiece>, album: Option<&String>, q: &SearchQuery, sep: char)
    ensures
        pieces_view(final(v)@) == pieces_view(old(v)@) + folder_pieces(album_view(album), *q, sep),
{
    let ghost start = pieces_view(v@);
    if let Some(p) = &q.folder_path {
        let chars = chars_of(p.as_str());
        let trimmed = trim_chars(&chars);
        if album.is_none() && trimmed.len() > 0 {
            if q.folder_recursive {
                let prefix = descendant_like_prefix_with(p.as_str(), sep);
                push_lit(v, " AND (f.folder = ");
                push_slot(v, SqlParam::Text(p.clone()));
                push_lit(v, " OR f.folder LIKE ");
                push_slot(v, SqlParam::Text(prefix));
                push_lit(v, ")");
            } else {
                push_lit(v, " AND f.folder = ");
                push_slot(v, SqlParam::Text(p.clone()));
            }
        }
    }
    proof {
        assert(pieces_view(v@) =~= start + folder_pieces(album_view(album), *q, sep));
    }
}

fn ext_params(xs: &Vec<String>) -> (r: Vec<SqlParam>)
    ensures
        params_view(r@) == ext_values(strings_view(xs@)),
{
    let mut r: Vec<SqlParam> = Vec::new();
    let mut k: usize = 0;
    while k < xs.len()
        invariant
            k <= xs@.len(),
            params_view(r@) == ext_values(strings_view(xs@.take(k as int))),
        decreases xs@.len() - k,
    {
        let chars = chars_of(xs[k].as_str());
        let t = trim_start_matches_char(&chars, '.');
        let lower = to_lowercase(string_of(&t).as_str());
        let ghost before = r@;
        let ghost value = ParamView::Text(lowercase(trim_start_char(xs@[k as int]@, '.')));
        r.push(SqlParam::Text(lower));
        proof {
            assert(params_view(r@) =~= params_view(before).push(value));
            assert(strings_view(xs@.take(k + 1)) =~= strings_view(xs@.take(k as int)).push(xs@[k as int]@));
            assert(ext_values(strings_view(xs@.take(k + 1))) =~= ext_values(
                strings_view(xs@.take(k as int)),
            ).push(value));
        }
        k = k + 1;
    }
    proof {
        assert(xs@.take(xs@.len() as int) =~= xs@);
    }
    r
}

fn push_exts(v: &mut Vec<SqlPiece>, q: &SearchQuery)
    ensures
        pieces_view(final(v)@) == pieces_view(old(v)@) + ext_pieces(*q),
{
    let ghost start = pieces_view(v@);
    if q.extensions.len() > 0 {
        let ps = ext_params(&q.extensions);
        push_in_list(v, " AND f.extension IN (", &ps);
    }
    proof {
        assert(pieces_view(v@) =~= start + ext_pieces(*q));
    }
}

fn push_dates(v: &mut Vec<SqlPiece>, q: &SearchQuery)
    ensures
        pieces_view(final(v)@) == pieces_view(old(v)@) + date_pieces(*q),
{
    let ghost start = pieces_view(v@);
    if let Some(from) = q.date_from {
        push_lit(v, " AND f.modified_time >= ");
        push_slot(v, SqlParam::Int(from));
    }
    if let Some(to) = q.date_to {
        push_lit(v, " AND f.modified_time <= ");
        push_slot(v, SqlParam::Int(to));
    }
    proof {
        assert(pieces_view(v@) =~= start + date_pieces(*q));
    }
}

fn push_flags(v: &mut Vec<SqlPiece>, s: FlagSelection)
    ensures
        pieces_view(final(v)@) == pieces_view(old(v)@) + flag_pieces(s),
{
    let ghost start = pieces_view(v@);
    if !s.shows_all() {
        let codes = s.allowed_codes();
        if codes.len() == 0 {
            push_lit(v, " AND 1 = 0");
        } else {
            let ps = int_params(&codes);
            push_in_list(v, " AND f.flag IN (", &ps);
        }
    }
    proof {
        assert(pieces_view(v@) =~= start + flag_pieces(s));
    }
}

fn push_rating(v: &mut Vec<SqlPiece>, r: RatingFilter)
    ensures
        pieces_view(final(v)@) == pieces_view(old(v)@) + rating_pieces(r),
{
    let ghost start = pieces_view(v@);
    match r {
        RatingFilter::Any => {},
        RatingFilter::Unrated => {
            push_lit(v, " AND COALESCE(m.rating, 0) = ");
            push_slot(v, SqlParam::Int(0));
        },
        RatingFilter::AtLeast(n) => {
            push_lit(v, " AND COALESCE(m.rating, 0) >= ");
            push_slot(v, SqlParam::Int(n as i64));
        },
        RatingFilter::Exactly(n) => {
            push_lit(v, " AND COALESCE(m.rating, 0) = ");
            push_slot(v, SqlParam::Int(n as i64));
        },
        RatingFilter::AtMost(n) => {
            push_lit(v, " AND COALESCE(m.rating, 0) <= ");
            push_slot(v, SqlParam::Int(n as i64));
        },
    }
    proof {
        assert(pieces_view(v@) =~= start + rating_pieces(r));
    }
}

fn push_presence(v: &mut Vec<SqlPiece>, q: &SearchQuery)
    ensures
        pieces_view(final(v)@) == pieces_view(old(v)@) + presence_pieces(*q),
{
    let ghost start = pieces_view(v@);
    if let Some(has_faces) = q.has_faces {
        if has_faces {
            push_lit(v, " AND EXISTS (SELECT 1 FROM face_clusters fc WHERE fc.file_id = f.id)");
        } else {
            push_lit(v, " AND NOT EXISTS (SELECT 1 FROM face_clusters fc WHERE fc.file_id = f.id)");
        }
    }
    if let Some(has_location) = q.has_location {
        if has_location {
            push_lit(v, " AND f.gps_lat IS NOT NULL");
        } else {
            push_lit(v, " AND f.gps_lat IS NULL");
        }
    }
    proof {
        assert(pieces_view(v@) =~= start + presence_pieces(*q));
    }
}

fn push_details(v: &mut Vec<SqlPiece>, q: &SearchQuery, now_unix: i64)
    requires
        cutoff_fits(*q, now_unix as int),
    ensures
        pieces_view(final(v)@) == pieces_view(old(v)@) + detail_pieces(*q, now_unix as int),
{
    let ghost start = pieces_view(v@);
    if let Some(c) = &q.person_cluster {
        push_lit(v, " AND f.id IN (SELECT file_id FROM face_clusters WHERE cluster_id = ");
        push_slot(v, SqlParam::Text(c.clone()));
        push_lit(v, ")");
    }
    if let Some(days) = q.added_within_days {
        let cutoff: i64 = now_unix - days * 86400;
        push_lit(v, " AND f.created_at_unix >= ");
        push_slot(v, SqlParam::Int(cutoff));
    }
    if let Some(c) = &q.camera_model {
        push_lit(v, " AND f.id IN (SELECT file_id FROM metadata WHERE camera_model = ");
        push_slot(v, SqlParam::Text(c.clone()));
        push_lit(v, ")");
    }
    if let Some(c) = &q.color_label {
        push_lit(v, " AND f.id IN (SELECT file_id FROM metadata WHERE label = ");
        push_slot(v, SqlParam::Text(c.clone()));
        push_lit(v, ")");
    }
    proof {
        assert(pieces_view(v@) =~= start + detail_pieces(*q, now_unix as int));
    }
}

fn push_order(v: &mut Vec<SqlPiece>, q: &SearchQuery)
    ensures
        pieces_view(final(v)@) == pieces_view(old(v)@) + order_pieces(*q),
{
    let ghost start = pieces_view(v@);
    push_lit(v, " ORDER BY ");
    push_lit(v, sort_column(q.sort_by));
    let collate = match q.sort_by {
        SortField::Name | SortField::Ext => " COLLATE NOCASE",
        _ => "",
    };
    push_lit(v, collate);
    push_lit(v, " ");
    push_lit(
        v,
        if q.sort_asc {
            "ASC"
        } else {
            "DESC"
        },
    );
    let nulls = match q.sort_by {
        SortField::Date => " NULLS LAST",
        _ => "",
    };
    push_lit(v, nulls);
    push_lit(v, ", f.id ASC");
    proof {
        assert(pieces_view(v@) =~= start + order_pieces(*q));
    }
}

/// The pieces of the statement behind a search.
pub fn search_statement(
    album_id: Option<&String>,
    query: &SearchQuery,
    fts_ids: Option<&Vec<String>>,
    file_cols: &str,
    now_unix: i64,
    sep: char,
) -> (v: Vec<SqlPiece>)
    requires
        cutoff_fits(*query, now_unix as int),
    ensures
        pieces_view(v@) == search_pieces(
            album_view(album_id),
            *query,
            fts_view(fts_ids),
            file_cols@,
            now_unix as int,
            sep,
        ),
{
    let mut v: Vec<SqlPiece> = Vec::new();
    push_lit(&mut v, "SELECT ");
    push_lit(&mut v, file_cols);
    match album_id {
        Some(_) => push_lit(&mut v, " FROM files f JOIN album_files af ON f.id = af.file_id"),
        None => push_lit(&mut v, " FROM files f"),
    }
    proof {
        assert(pieces_view(v@) =~= select_pieces(album_view(album_id), file_cols@));
    }
    let ghost s0 = pieces_view(v@);
    if query.rating.is_active() {
        push_lit(&mut v, " LEFT JOIN metadata m ON f.id = m.file_id");
    }
    proof {
        assert(pieces_view(v@) =~= s0 + meta_pieces(*query));
    }
    push_scope(&mut v, album_id, query);
    let ghost s1 = pieces_view(v@);
    if query.only_deleted {
        push_lit(&mut v, " AND f.is_deleted = 1");
    } else {
        push_lit(&mut v, " AND f.is_deleted = 0");
    }
    proof {
        assert(pieces_view(v@) =~= s1 + deleted_pieces(*query));
    }
    push_tag_filters(&mut v, query);
    let ghost s2 = pieces_view(v@);
    if let Some(batch_id) = query.import_batch {
        push_lit(&mut v, " AND f.import_batch_id = ");
        push_slot(&mut v, SqlParam::Int(batch_id));
    }
    proof {
        assert(pieces_view(v@) =~= s2 + batch_pieces(*query));
    }
    push_collapse(&mut v, query);
    push_fts(&mut v, fts_ids);
    push_folder(&mut v, album_id, query, sep);
    push_exts(&mut v, query);
    push_dates(&mut v, query);
    push_flags(&mut v, query.flags);
    push_rating(&mut v, query.rating);
    push_presence(&mut v, query);
    push_details(&mut v, query, now_unix);
    push_order(&mut v, query);
    v
}

/// The statement and parameters of a search, for paths that use `sep`.
/// `album_id` restricts it to an album's files; `fts_ids` to the files a
/// full-text search found; `now_unix` anchors the recency filter.
pub fn search_sql_with_sep(
    album_id: Option<&String>,
    query: &SearchQuery,
    fts_ids: Option<&Vec<String>>,
    file_cols: &str,
    now_unix: i64,
    sep: char,
) -> (r: SearchSql)
    requires
        cutoff_fits(*query, now_unix as int),
    ensures
        r.sql@ == render(
            search_pieces(album_view(album_id), *query, fts_view(fts_ids), file_cols@, now_unix as int, sep),
        ),
        params_view(r.params@) == slot_values(
            search_pieces(album_view(album_id), *query, fts_view(fts_ids), file_cols@, now_unix as int, sep),
        ),
{
    let v = search_statement(album_id, query, fts_ids, file_cols, now_unix, sep);
    render_pieces(&v)
}

/// The statement and parameters of a search, for the platform's paths.
pub fn search_sql(
    album_id: Option<&String>,
    query: &SearchQuery,
    fts_ids: Option<&Vec<String>>,
    file_cols: &str,
    now_unix: i64,
) -> (r: SearchSql)
    requires
        cutoff_fits(*query, now_unix as int),
    ensures
        exists|sep: char|
            (sep == '/' || sep == '\\') && r.sql@ == render(
                search_pieces(album_view(album_id), *query, fts_view(fts_ids), file_cols@, now_unix as int, sep),
            ) && params_view(r.params@) == slot_values(
                search_pieces(album_view(album_id), *query, fts_view(fts_ids), file_cols@, now_unix as int, sep),
            ),
{
    let sep = main_separator();
    search_sql_with_sep(album_id, query, fts_ids, file_cols, now_unix, sep)
}

/// The text a search runs through the full-text index: the query's text when
/// it is not blank.
pub fn text_search_input(query: &SearchQuery) -> (r: Option<String>)
    ensures
        r is Some <==> (query.text matches Some(t) && trim_spec(t@).len() > 0),
        r matches Some(t) ==> query.text matches Some(u) && t@ == u@,
{
    match &query.text {
        Some(t) => {
            let chars = chars_of(t.as_str());
            let trimmed = trim_chars(&chars);
            if trimmed.len() > 0 {
                Some(t.clone())
            } else {
                None
            }
        },
        None => None,
    }
}


proof fn lemma_front_kept(
    f: Seq<Piece>,
    a: Seq<Piece>,
    b: Seq<Piece>,
    c: Seq<Piece>,
    d: Seq<Piece>,
    e: Seq<Piece>,
    g: Seq<Piece>,
    h: Seq<Piece>,
    j: Seq<Piece>,
    k: Seq<Piece>,
    l: Seq<Piece>,
    m: Seq<Piece>,
    i: int,
)
    requires
        0 <= i < f.len(),
    ensures
        (f + a + b + c + d + e + g + h + j + k + l + m)[i] == f[i],
{
    assert((f + a)[i] == f[i]);
    assert((f + a + b)[i] == f[i]);
    assert((f + a + b + c)[i] == f[i]);
    assert((f + a + b + c + d)[i] == f[i]);
    assert((f + a + b + c + d + e)[i] == f[i]);
    assert((f + a + b + c + d + e + g)[i] == f[i]);
    assert((f + a + b + c + d + e + g + h)[i] == f[i]);
    assert((f + a + b + c + d + e + g + h + j)[i] == f[i]);
    assert((f + a + b + c + d + e + g + h + j + k)[i] == f[i]);
    assert((f + a + b + c + d + e + g + h + j + k + l)[i] == f[i]);
}

/// The statement of the deleted view holds the filter `f.is_deleted = 1`;
/// the statement of every other search holds `f.is_deleted = 0`.
pub proof fn lemma_deleted_filter(
    album: Option<Seq<char>>,
    q: SearchQuery,
    fts: Option<Seq<Seq<char>>>,
    cols: Seq<char>,
    now: int,
    sep: char,
)
    ensures
        q.only_deleted ==> search_pieces(album, q, fts, cols, now, sep).contains(
            lit(" AND f.is_deleted = 1"@),
        ),
        !q.only_deleted ==> search_pieces(album, q, fts, cols, now, sep).contains(
            lit(" AND f.is_deleted = 0"@),
        ),
{
    let head = select_pieces(album, cols) + meta_pieces(q) + scope_pieces(album, q);
    let front = head + deleted_pieces(q);
    let i = head.len() as int;
    assert(front[i] == deleted_pieces(q)[0]);
    lemma_front_kept(
        front,
        tag_pieces(q),
        batch_pieces(q),
        collapse_pieces(q),
        fts_pieces(fts),
        folder_pieces(album, q, sep),
        ext_pieces(q),
        date_pieces(q),
        flag_pieces(q.flags),
        rating_pieces(q.rating),
        presence_pieces(q),
        detail_pieces(q, now) + order_pieces(q),
        i,
    );
    assert(search_pieces(album, q, fts, cols, now, sep)[i] == front[i]);
}


/// Whether a file whose rating is `x` (0 when unrated) passes a rating
/// clause, reading the clause as SQL: its comparison text is one of
/// `COALESCE(m.rating, 0) = ?`, `>= ?` or `<= ?`, and the slot holds the bound.
/// No clause at all passes every file.
pub open spec fn rating_clause_passes(ps: Seq<Piece>, x: int) -> bool {
    if ps.len() == 0 {
        true
    } else if ps.len() == 2 {
        match (ps[0], ps[1]) {
            (Piece::Lit(t), Piece::Slot(ParamView::Int(n))) => if t == " AND COALESCE(m.rating, 0) = "@ {
                x == n
            } else if t == " AND COALESCE(m.rating, 0) >= "@ {
                x >= n
            } else if t == " AND COALESCE(m.rating, 0) <= "@ {
                x <= n
            } else {
                false
            },
            _ => false,
        }
    } else {
        false
    }
}

/// What each rating filter lets through, for a file rated `x` (0 when
/// unrated): `Any` every file, `Unrated` the files rated 0, `AtLeast(n)`
/// those rated `n` or more, `Exactly(n)` those rated exactly `n`, `AtMost(n)`
/// those rated `n` or less.
#[verifier::rlimit(40)]
pub proof fn lemma_rating_clause_meaning(r: RatingFilter, x: int)
    ensures
        rating_clause_passes(rating_pieces(r), x) <==> match r {
            RatingFilter::Any => true,
            RatingFilter::Unrated => x == 0,
            RatingFilter::AtLeast(n) => x >= n,
            RatingFilter::Exactly(n) => x == n,
            RatingFilter::AtMost(n) => x <= n,
        },
{
    reveal_strlit(" AND COALESCE(m.rating, 0) = ");
    reveal_strlit(" AND COALESCE(m.rating, 0) >= ");
    reveal_strlit(" AND COALESCE(m.rating, 0) <= ");
    let eq = " AND COALESCE(m.rating, 0) = "@;
    let ge = " AND COALESCE(m.rating, 0) >= "@;
    let le = " AND COALESCE(m.rating, 0) <= "@;
    assert(eq != ge) by {
        assert(eq[27] != ge[27]);
    }
    assert(eq != le) by {
        assert(eq[27] != le[27]);
    }
    assert(ge != le) by {
        assert(ge[27] != le[27]);
    }
}

/// The search statement holds the rating clause of its query unchanged.
pub proof fn lemma_rating_clause_in_statement(
    album: Option<Seq<char>>,
    q: SearchQuery,
    fts: Option<Seq<Seq<char>>>,
    cols: Seq<char>,
    now: int,
    sep: char,
)
    ensures
        exists|i: int|
            0 <= i && i + rating_pieces(q.rating).len() <= search_pieces(album, q, fts, cols, now, sep).len()
                && #[trigger] search_pieces(album, q, fts, cols, now, sep).subrange(
                i,
                i + rating_pieces(q.rating).len(),
            ) == rating_pieces(q.rating),
{
    let all = search_pieces(album, q, fts, cols, now, sep);
    let rp = rating_pieces(q.rating);
    let front = select_pieces(album, cols) + meta_pieces(q) + scope_pieces(album, q) + deleted_pieces(q)
        + tag_pieces(q) + batch_pieces(q) + collapse_pieces(q) + fts_pieces(fts) + folder_pieces(
        album,
        q,
        sep,
    ) + ext_pieces(q) + date_pieces(q) + flag_pieces(q.flags);
    let back = presence_pieces(q) + detail_pieces(q, now) + order_pieces(q);
    assert(all =~= front + rp + back);
    assert(all.subrange(front.len() as int, (front.len() + rp.len()) as int) =~= rp);
}

/// How a comparison clause ` AND <col> <op> ?` tests the value `x` of column
/// `col` against its bound `n`; `None` when the text is no such clause.
pub open spec fn comparison_test(t: Seq<char>, col: Seq<char>, x: int, n: int) -> Option<bool> {
    if t == " AND "@ + col + " = "@ {
        Some(x == n)
    } else if t == " AND "@ + col + " >= "@ {
        Some(x >= n)
    } else if t == " AND "@ + col + " <= "@ {
        Some(x <= n)
    } else {
        None
    }
}

/// Whether a value `x` of column `col` passes a run of comparison clauses,
/// reading each clause as SQL.
pub open spec fn comparisons_pass(ps: Seq<Piece>, col: Seq<char>, x: int) -> bool
    decreases ps.len(),
{
    if ps.len() == 0 {
        true
    } else if ps.len() >= 2 {
        match (ps[0], ps[1]) {
            (Piece::Lit(t), Piece::Slot(ParamView::Int(n))) => match comparison_test(t, col, x, n) {
                Some(b) => b && comparisons_pass(ps.skip(2), col, x),
                None => false,
            },
            _ => false,
        }
    } else {
        false
    }
}

/// The date range keeps exactly the files modified between its ends, both
/// included: a file modified at `t` passes when `t` is not before `date_from`
/// and not after `date_to` (an absent end does not limit).
pub proof fn lemma_date_range_meaning(q: SearchQuery, t: int)
    ensures
        comparisons_pass(date_pieces(q), "f.modified_time"@, t) <==> ((q.date_from matches Some(a)
            ==> t >= a) && (q.date_to matches Some(b) ==> t <= b)),
{
    reveal_strlit(" AND f.modified_time >= ");
    reveal_strlit(" AND f.modified_time <= ");
    reveal_strlit(" AND ");
    reveal_strlit("f.modified_time");
    reveal_strlit(" = ");
    reveal_strlit(" >= ");
    reveal_strlit(" <= ");
    let col = "f.modified_time"@;
    let ge = " AND f.modified_time >= "@;
    let le = " AND f.modified_time <= "@;
    assert(ge =~= " AND "@ + col + " >= "@);
    assert(le =~= " AND "@ + col + " <= "@);
    assert(ge != " AND "@ + col + " = "@) by {
        assert(ge.len() != (" AND "@ + col + " = "@).len());
    }
    assert(le != " AND "@ + col + " = "@) by {
        assert(le.len() != (" AND "@ + col + " = "@).len());
    }
    assert(le != ge) by {
        assert(le[21] != ge[21]);
    }
    reveal_with_fuel(comparisons_pass, 3);
    let p = date_pieces(q);
    let a = match q.date_from {
        Some(d) => seq![lit(" AND f.modified_time >= "@), int_slot(d as int)],
        None => Seq::<Piece>::empty(),
    };
    let b = match q.date_to {
        Some(d) => seq![lit(" AND f.modified_time <= "@), int_slot(d as int)],
        None => Seq::<Piece>::empty(),
    };
    assert(p == a + b);
    if a.len() == 2 {
        assert(p.skip(2) =~= b);
    } else {
        assert(p =~= b);
    }
    if b.len() == 2 {
        assert(b.skip(2) =~= Seq::<Piece>::empty());
    }
}

/// The recency filter keeps the files added at most `days` whole days of
/// 86400 seconds before `now`.
pub proof fn lemma_recency_meaning(now: int, days: int, created: int)
    ensures
        created >= added_cutoff(now, days) <==> now - created <= days * 86400,
{
}


proof fn lemma_slot_list_holds(vs: Seq<ParamView>, x: ParamView)
    ensures
        slot_list(vs).contains(Piece::Slot(x)) <==> vs.contains(x),
    decreases vs.len(),
{
    if vs.len() == 1 {
        if vs.contains(x) {
            assert(vs[0] == x);
        }
        if slot_list(vs).contains(Piece::Slot(x)) {
            assert(slot_list(vs)[0] == Piece::Slot(vs[0]));
        }
    } else if vs.len() > 1 {
        let d = vs.drop_last();
        lemma_slot_list_holds(d, x);
        let l = slot_list(d);
        let r = slot_list(vs);
        assert(r == l.push(lit(","@)).push(Piece::Slot(vs.last())));
        if vs.contains(x) {
            let i = choose|i: int| 0 <= i < vs.len() && vs[i] == x;
            if i < d.len() {
                assert(d[i] == x);
                assert(d.contains(x));
                let j = choose|j: int| 0 <= j < l.len() && l[j] == Piece::Slot(x);
                assert(r[j] == l[j]);
            } else {
                assert(r[r.len() - 1] == Piece::Slot(x));
            }
        }
        if r.contains(Piece::Slot(x)) {
            let j = choose|j: int| 0 <= j < r.len() && r[j] == Piece::Slot(x);
            if j < l.len() {
                assert(l[j] == r[j]);
                assert(l.contains(Piece::Slot(x)));
                let i = choose|i: int| 0 <= i < d.len() && d[i] == x;
                assert(vs[i] == d[i]);
            } else if j == l.len() {
                assert(r[j] == lit(","@));
            } else {
                assert(vs[vs.len() - 1] == x);
            }
        }
    }
}

/// Whether a file whose flag is stored as `code` passes a flag clause, read
/// as SQL: no clause passes every file, ` AND 1 = 0` none, and
/// ` AND f.flag IN (...)` the files whose code is one of the listed values.
pub open spec fn flag_clause_passes(ps: Seq<Piece>, code: int) -> bool {
    if ps.len() == 0 {
        true
    } else if ps == seq![lit(" AND 1 = 0"@)] {
        false
    } else if ps.len() >= 2 && ps[0] == lit(" AND f.flag IN ("@) && ps.last() == lit(")"@) {
        ps.contains(Piece::Slot(ParamView::Int(code)))
    } else {
        false
    }
}

/// The flag filter keeps a file exactly when its flag is one of the selected
/// flags; selecting none or all three keeps every file.
pub proof fn lemma_flag_clause_meaning(s: FlagSelection, f: Flag)
    ensures
        flag_clause_passes(flag_pieces(s), flag_code(f)) <==> (selection_count(s) == 0
            || selection_count(s) == 3 || selection_allows(s, f)),
{
    crate::models::lemma_codes_match_allows(s, f);
    reveal_strlit(" AND 1 = 0");
    reveal_strlit(" AND f.flag IN (");
    let cs = selection_codes(s);
    if !(selection_count(s) == 0 || selection_count(s) == 3) {
        assert(cs.len() > 0);
        let vs = ints(cs);
        let ps = in_list(" AND f.flag IN ("@, vs);
        let sl = slot_list(vs);
        assert(ps == seq![lit(" AND f.flag IN ("@)] + sl + seq![lit(")"@)]);
        assert(ps[0] == lit(" AND f.flag IN ("@));
        assert(ps.last() == lit(")"@));
        assert(ps != seq![lit(" AND 1 = 0"@)]) by {
            assert(" AND f.flag IN ("@ != " AND 1 = 0"@) by {
                assert(" AND f.flag IN ("@[5] != " AND 1 = 0"@[5]);
            }
        }
        let x = ParamView::Int(flag_code(f));
        lemma_slot_list_holds(vs, x);
        assert(vs.contains(x) <==> cs.contains(flag_code(f) as i64)) by {
            if vs.contains(x) {
                let i = choose|i: int| 0 <= i < vs.len() && vs[i] == x;
                assert(cs[i] == flag_code(f) as i64);
            }
            if cs.contains(flag_code(f) as i64) {
                let i = choose|i: int| 0 <= i < cs.len() && cs[i] == flag_code(f) as i64;
                assert(vs[i] == x);
            }
        }
        assert(ps.contains(Piece::Slot(x)) <==> sl.contains(Piece::Slot(x))) by {
            if ps.contains(Piece::Slot(x)) {
                let j = choose|j: int| 0 <= j < ps.len() && ps[j] == Piece::Slot(x);
                assert(j != 0 && j != ps.len() - 1);
                assert(ps[j] == sl[j - 1]);
            }
            if sl.contains(Piece::Slot(x)) {
                let j = choose|j: int| 0 <= j < sl.len() && sl[j] == Piece::Slot(x);
                assert(ps[j + 1] == sl[j]);
            }
        }
    }
}

} // verus!

//! The storage rules that do not depend on the database itself: how the
//! schema script is split into statements and ordered, how API keys are
//! minted and stored, and which uploads may create projects or raise a
//! ratchet floor.

use vstd::prelude::*;

use crate::crypto::{sha256, sha256_digest};
use crate::ids::{is_simple_uuid, lemma_simple_uuid_digits, new_uuid_simple};
use crate::server::csrf::{hex_encode, hex_lower, is_lower_hex};
use crate::text::{
    ascii_lower, ascii_upper, chars_of, eq_ignore_case, eq_ignore_ascii_case, eq_str, has_prefix, owned, push_all,
    push_str, slice, split, split_char, starts_with_str, string_from_chars, to_ascii_lowercase, to_ascii_uppercase,
    trim, trim_start, trimmed, trimmed_start,
};
use vstd::utf8::encode_utf8;

verus! {

// ---------------------------------------------------------------------------
// The schema script
// ---------------------------------------------------------------------------

/// Where the first statement separator (`;` ending a line) starts, or -1.
pub open spec fn separator_at(s: Seq<char>) -> int
    decreases s.len(),
{
    if s.len() < 2 {
        -1
    } else if s[0] == ';' && s[1] == '\n' {
        0
    } else {
        let r = separator_at(s.drop_first());
        if r < 0 {
            -1
        } else {
            r + 1
        }
    }
}

pub proof fn lemma_separator_at(s: Seq<char>)
    ensures
        -1 <= separator_at(s),
        separator_at(s) >= 0 ==> separator_at(s) + 2 <= s.len(),
        separator_at(s) >= 0 ==> s[separator_at(s)] == ';' && s[separator_at(s) + 1] == '\n',
        separator_at(s) >= 0 ==> forall|k: int| 0 <= k < separator_at(s) ==> !(#[trigger] s[k] == ';' && s[k + 1] == '\n'),
        separator_at(s) < 0 ==> forall|k: int| 0 <= k < s.len() - 1 ==> !(#[trigger] s[k] == ';' && s[k + 1] == '\n'),
    decreases s.len(),
{
    if s.len() >= 2 && !(s[0] == ';' && s[1] == '\n') {
        lemma_separator_at(s.drop_first());
        assert forall|k: int| 1 <= k < s.len() - 1 implies #[trigger] s[k] == s.drop_first()[k - 1] && s[k + 1]
            == s.drop_first()[k] by {}
    }
}

/// The chunks of a script between statement separators.
pub open spec fn chunks(s: Seq<char>) -> Seq<Seq<char>>
    decreases s.len(),
{
    let e = separator_at(s);
    if e < 0 {
        seq![s]
    } else {
        proof {
            lemma_separator_at(s);
        }
        seq![s.take(e)] + chunks(s.skip(e + 2))
    }
}

/// A chunk without the `--` comment lines before its statement.
pub open spec fn uncommented(s: Seq<char>) -> Seq<char>
    decreases s.len(),
{
    let t = trim_start(s);
    if has_prefix(t, "--"@) {
        proof {
            crate::text::lemma_trim_start_len(s);
            reveal_strlit("--");
        }
        let r = t.skip(2);
        let i = crate::text::index_of_char(r, '\n');
        if i >= 0 {
            proof {
                crate::text::lemma_index_of_char(r, '\n');
            }
            uncommented(r.skip(i + 1))
        } else {
            Seq::empty()
        }
    } else {
        t
    }
}

/// The statements of a script, in order: each chunk without its leading
/// comments and surrounding whitespace, empty ones left out.
pub open spec fn statements(s: Seq<char>) -> Seq<Seq<char>> {
    statements_of(chunks(s))
}

pub open spec fn statements_of(cs: Seq<Seq<char>>) -> Seq<Seq<char>>
    decreases cs.len(),
{
    if cs.len() == 0 {
        Seq::empty()
    } else {
        let rest = statements_of(cs.drop_last());
        let st = trim(uncommented(cs.last()));
        if st.len() > 0 {
            rest.push(st)
        } else {
            rest
        }
    }
}

fn uncomment(c: &[char]) -> (r: Vec<char>)
    ensures
        r@ == uncommented(c@),
    decreases c@.len(),
{
    let t = trimmed_start(c);
    if starts_with_str(t.as_slice(), "--") {
        proof {
            reveal_strlit("--");
            crate::text::lemma_trim_start_len(c@);
        }
        let r = slice(t.as_slice(), 2, t.len());
        proof {
            assert(r@ == t@.skip(2));
        }
        match crate::text::find_char(r.as_slice(), '\n') {
            Some(i) => {
                proof {
                    crate::text::lemma_index_of_char_is(r@, '\n', i as int);
                }
                let rest = slice(r.as_slice(), i + 1, r.len());
                proof {
                    assert(rest@ == r@.skip(i + 1));
                }
                uncomment(rest.as_slice())
            },
            None => {
                proof {
                    crate::text::lemma_index_of_char(r@, '\n');
                }
                Vec::new()
            },
        }
    } else {
        t
    }
}

/// Split a schema script into its statements. Statements end with a `;` at
/// the end of a line; comment lines are stripped first, so a statement after
/// a comment block is not mistaken for a comment and skipped whole.
pub fn schema_statements(sql: &str) -> (r: Vec<String>)
    ensures
        r@.map_values(|s: String| s@) == statements(sql@),
{
    let all = chars_of(sql);
    let mut out: Vec<String> = Vec::new();
    let mut start: usize = 0;
    let mut finished = false;
    let ghost mut done: Seq<Seq<char>> = Seq::empty();
    proof {
        assert(all@.skip(0) == all@);
    }
    while !finished
        invariant
            start <= all@.len(),
            all@ == sql@,
            !finished ==> chunks(sql@) == done + chunks(all@.skip(start as int)),
            finished ==> chunks(sql@) == done,
            out@.map_values(|s: String| s@) == statements_of(done),
        decreases all@.len() - start + (if finished { 0int } else { 1int }),
    {
        let rest = slice(all.as_slice(), start, all.len());
        let ghost rs = all@.skip(start as int);
        proof {
            assert(rest@ == rs);
            lemma_separator_at(rs);
        }
        // Find the end of this chunk.
        let mut e: usize = 0;
        let mut found = false;
        while rest.len() >= 1 && e < rest.len() - 1 && !found
            invariant
                e <= rest@.len(),
                forall|k: int| 0 <= k < e ==> !(#[trigger] rest@[k] == ';' && rest@[k + 1] == '\n'),
                found ==> e + 1 < rest@.len() && rest@[e as int] == ';' && rest@[e + 1] == '\n',
            decreases rest@.len() - e + (if found { 0int } else { 1int }),
        {
            if rest[e] == ';' && rest[e + 1] == '\n' {
                found = true;
            } else {
                e += 1;
            }
        }
        let chunk_end: usize = if found { e } else { rest.len() };
        proof {
            if found {
                if separator_at(rs) >= 0 && separator_at(rs) < e {
                    assert(false);
                }
                if separator_at(rs) < 0 {
                    assert(!(rs[e as int] == ';' && rs[e + 1] == '\n'));
                }
                assert(separator_at(rs) == e);
            } else {
                if separator_at(rs) >= 0 {
                    let x = separator_at(rs);
                    assert(!(rs[x] == ';' && rs[x + 1] == '\n'));
                }
            }
        }
        let chunk = slice(rest.as_slice(), 0, chunk_end);
        let st = trimmed(uncomment(chunk.as_slice()).as_slice());
        let ghost before = out@.map_values(|s: String| s@);
        if st.len() > 0 {
            out.push(string_from_chars(st.as_slice()));
            proof {
                assert(out@.map_values(|s: String| s@) =~= before.push(st@));
            }
        }
        proof {
            let c = rs.take(chunk_end as int);
            assert(chunk@ == c);
            assert(done.push(c).drop_last() == done);
            if found {
                assert(chunks(rs) == seq![c] + chunks(rs.skip(e + 2)));
                assert(rs.skip(e + 2) == all@.skip(start + e + 2));
                assert(done + chunks(rs) == done.push(c) + chunks(rs.skip(e + 2)));
            } else {
                assert(chunks(rs) == seq![rs]);
                assert(c == rs);
                assert(done + chunks(rs) == done.push(c));
            }
            done = done.push(c);
        }
        if found {
            start = start + e + 2;
        } else {
            finished = true;
        }
    }
    proof {
        assert(out@.map_values(|s: String| s@) == statements_of(chunks(sql@)));
    }
    out
}

/// A statement creating an index (`CREATE INDEX`, in any case).
pub open spec fn creates_index(s: Seq<char>) -> bool {
    has_prefix(ascii_upper(s), "CREATE INDEX"@)
}

/// The order a schema is applied in: its tables and seed rows first, then,
/// once the column upgrades have run, its indexes — an index over a column
/// that only an upgrade adds must come after it.
pub fn migration_phases(statements: &Vec<String>) -> (r: (Vec<String>, Vec<String>))
    ensures
        r.0@.map_values(|s: String| s@) == statements@.map_values(|s: String| s@).filter(|s: Seq<char>| !creates_index(s)),
        r.1@.map_values(|s: String| s@) == statements@.map_values(|s: String| s@).filter(|s: Seq<char>| creates_index(s)),
{
    let ghost v = statements@.map_values(|s: String| s@);
    let mut tables: Vec<String> = Vec::new();
    let mut indexes: Vec<String> = Vec::new();
    let mut i: usize = 0;
    proof {
        assert(v.take(0) =~= Seq::<Seq<char>>::empty());
        reveal_with_fuel(Seq::<_>::filter, 1);
        assert(tables@.map_values(|s: String| s@) =~= v.take(0).filter(|s: Seq<char>| !creates_index(s)));
        assert(indexes@.map_values(|s: String| s@) =~= v.take(0).filter(|s: Seq<char>| creates_index(s)));
    }
    while i < statements.len()
        invariant
            i <= v.len(),
            v == statements@.map_values(|s: String| s@),
            tables@.map_values(|s: String| s@) == v.take(i as int).filter(|s: Seq<char>| !creates_index(s)),
            indexes@.map_values(|s: String| s@) == v.take(i as int).filter(|s: Seq<char>| creates_index(s)),
        decreases statements.len() - i,
    {
        proof {
            assert(v.take(i + 1).drop_last() == v.take(i as int));
            assert(v.take(i + 1).last() == statements@[i as int]@);
            reveal_with_fuel(Seq::<_>::filter, 1);
        }
        let s = &statements[i];
        let up = to_ascii_uppercase(chars_of(s.as_str()).as_slice());
        let ghost bt = tables@.map_values(|s: String| s@);
        let ghost bi = indexes@.map_values(|s: String| s@);
        if starts_with_str(up.as_slice(), "CREATE INDEX") {
            indexes.push(s.clone());
            proof {
                assert(indexes@.map_values(|s: String| s@) =~= bi.push(s@));
            }
        } else {
            tables.push(s.clone());
            proof {
                assert(tables@.map_values(|s: String| s@) =~= bt.push(s@));
            }
        }
        i += 1;
    }
    proof {
        assert(v.take(i as int) == v);
    }
    (tables, indexes)
}

// ---------------------------------------------------------------------------
// Column upgrades
// ---------------------------------------------------------------------------

/// A guarded upgrade of a database created by an earlier version: when
/// `table` has no column `probe`, `statements` add the columns it lacks.
pub struct ColumnMigration {
    pub table: &'static str,
    pub probe: &'static str,
    pub statements: Vec<&'static str>,
}

pub type MigrationView = (Seq<char>, Seq<char>, Seq<Seq<char>>);

pub open spec fn migration_view(m: ColumnMigration) -> MigrationView {
    (m.table@, m.probe@, m.statements@.map_values(|s: &str| s@))
}

/// The upgrades, in the order they run.
pub open spec fn upgrades() -> Seq<MigrationView> {
    seq![
        ("coverage_snapshots"@, "dependencies_json"@, seq!["ALTER TABLE coverage_snapshots ADD COLUMN dependencies_json TEXT"@]),
        ("coverage_snapshots"@, "source"@, seq!["ALTER TABLE coverage_snapshots ADD COLUMN source TEXT NOT NULL DEFAULT 'omnivore-agent'"@]),
        ("projects"@, "github_repo"@, seq!["ALTER TABLE projects ADD COLUMN github_repo TEXT"@]),
        ("projects"@, "source_root"@, seq!["ALTER TABLE projects ADD COLUMN source_root TEXT"@]),
        ("projects"@, "line_threshold"@, seq!["ALTER TABLE projects ADD COLUMN line_threshold REAL"@, "ALTER TABLE projects ADD COLUMN branch_threshold REAL"@]),
        ("projects"@, "line_warn_threshold"@, seq!["ALTER TABLE projects ADD COLUMN line_warn_threshold REAL"@, "ALTER TABLE projects ADD COLUMN branch_warn_threshold REAL"@]),
        ("settings"@, "default_line_warn_threshold"@, seq!["ALTER TABLE settings ADD COLUMN default_line_warn_threshold REAL NOT NULL DEFAULT 0.5"@, "ALTER TABLE settings ADD COLUMN default_branch_warn_threshold REAL NOT NULL DEFAULT 0.5"@]),
        ("settings"@, "retention_full"@, seq!["ALTER TABLE settings ADD COLUMN retention_full INTEGER NOT NULL DEFAULT 30"@, "ALTER TABLE settings ADD COLUMN retention_summary INTEGER NOT NULL DEFAULT 60"@]),
        ("projects"@, "tags"@, seq!["ALTER TABLE projects ADD COLUMN tags TEXT"@]),
        ("projects"@, "ratchet_enabled"@, seq!["ALTER TABLE projects ADD COLUMN ratchet_enabled INTEGER NOT NULL DEFAULT 0"@, "ALTER TABLE projects ADD COLUMN ratchet_line_floor REAL"@, "ALTER TABLE projects ADD COLUMN ratchet_branch_floor REAL"@]),
    ]
}

pub fn column_migrations() -> (r: Vec<ColumnMigration>)
    ensures
        r@.map_values(|m: ColumnMigration| migration_view(m)) == upgrades(),
{
    let r = vec![
        ColumnMigration { table: "coverage_snapshots", probe: "dependencies_json", statements: vec!["ALTER TABLE coverage_snapshots ADD COLUMN dependencies_json TEXT"] },
        ColumnMigration { table: "coverage_snapshots", probe: "source", statements: vec!["ALTER TABLE coverage_snapshots ADD COLUMN source TEXT NOT NULL DEFAULT 'omnivore-agent'"] },
        ColumnMigration { table: "projects", probe: "github_repo", statements: vec!["ALTER TABLE projects ADD COLUMN github_repo TEXT"] },
        ColumnMigration { table: "projects", probe: "source_root", statements: vec!["ALTER TABLE projects ADD COLUMN source_root TEXT"] },
        ColumnMigration { table: "projects", probe: "line_threshold", statements: vec!["ALTER TABLE projects ADD COLUMN line_threshold REAL", "ALTER TABLE projects ADD COLUMN branch_threshold REAL"] },
        ColumnMigration { table: "projects", probe: "line_warn_threshold", statements: vec!["ALTER TABLE projects ADD COLUMN line_warn_threshold REAL", "ALTER TABLE projects ADD COLUMN branch_warn_threshold REAL"] },
        ColumnMigration { table: "settings", probe: "default_line_warn_threshold", statements: vec!["ALTER TABLE settings ADD COLUMN default_line_warn_threshold REAL NOT NULL DEFAULT 0.5", "ALTER TABLE settings ADD COLUMN default_branch_warn_threshold REAL NOT NULL DEFAULT 0.5"] },
        ColumnMigration { table: "settings", probe: "retention_full", statements: vec!["ALTER TABLE settings ADD COLUMN retention_full INTEGER NOT NULL DEFAULT 30", "ALTER TABLE settings ADD COLUMN retention_summary INTEGER NOT NULL DEFAULT 60"] },
        ColumnMigration { table: "projects", probe: "tags", statements: vec!["ALTER TABLE projects ADD COLUMN tags TEXT"] },
        ColumnMigration { table: "projects", probe: "ratchet_enabled", statements: vec!["ALTER TABLE projects ADD COLUMN ratchet_enabled INTEGER NOT NULL DEFAULT 0", "ALTER TABLE projects ADD COLUMN ratchet_line_floor REAL", "ALTER TABLE projects ADD COLUMN ratchet_branch_floor REAL"] },
    ];
    proof {
        assert(r@.map_values(|m: ColumnMigration| migration_view(m)) =~~= upgrades());
    }
    r
}

/// Every upgrade statement alters a table; none creates an index.
pub proof fn lemma_upgrades_alter_tables()
    ensures
        forall|i: int, k: int|
            0 <= i < upgrades().len() && 0 <= k < upgrades()[i].2.len() ==> has_prefix(
                #[trigger] upgrades()[i].2[k],
                "ALTER TABLE "@,
            ) && !creates_index(upgrades()[i].2[k]),
{
    reveal_strlit("ALTER TABLE ");
    reveal_strlit("CREATE INDEX");
    reveal_strlit("ALTER TABLE coverage_snapshots ADD COLUMN dependencies_json TEXT");
    reveal_strlit("ALTER TABLE coverage_snapshots ADD COLUMN source TEXT NOT NULL DEFAULT 'omnivore-agent'");
    reveal_strlit("ALTER TABLE projects ADD COLUMN github_repo TEXT");
    reveal_strlit("ALTER TABLE projects ADD COLUMN source_root TEXT");
    reveal_strlit("ALTER TABLE projects ADD COLUMN line_threshold REAL");
    reveal_strlit("ALTER TABLE projects ADD COLUMN branch_threshold REAL");
    reveal_strlit("ALTER TABLE projects ADD COLUMN line_warn_threshold REAL");
    reveal_strlit("ALTER TABLE projects ADD COLUMN branch_warn_threshold REAL");
    reveal_strlit("ALTER TABLE settings ADD COLUMN default_line_warn_threshold REAL NOT NULL DEFAULT 0.5");
    reveal_strlit("ALTER TABLE settings ADD COLUMN default_branch_warn_threshold REAL NOT NULL DEFAULT 0.5");
    reveal_strlit("ALTER TABLE settings ADD COLUMN retention_full INTEGER NOT NULL DEFAULT 30");
    reveal_strlit("ALTER TABLE settings ADD COLUMN retention_summary INTEGER NOT NULL DEFAULT 60");
    reveal_strlit("ALTER TABLE projects ADD COLUMN tags TEXT");
    reveal_strlit("ALTER TABLE projects ADD COLUMN ratchet_enabled INTEGER NOT NULL DEFAULT 0");
    reveal_strlit("ALTER TABLE projects ADD COLUMN ratchet_line_floor REAL");
    reveal_strlit("ALTER TABLE projects ADD COLUMN ratchet_branch_floor REAL");
    assert forall|i: int, k: int|
        0 <= i < upgrades().len() && 0 <= k < upgrades()[i].2.len() implies has_prefix(
            #[trigger] upgrades()[i].2[k],
            "ALTER TABLE "@,
        ) && !creates_index(upgrades()[i].2[k]) by {
        let st = upgrades()[i].2[k];
        assert(st.subrange(0, 12) =~= "ALTER TABLE "@);
        assert(ascii_upper(st)[0] == 'A');
        assert(ascii_upper(st).subrange(0, 12)[0] == 'A');
    }
}

/// The query asking whether `table` has a column named `column`.
pub open spec fn probe_text(table: Seq<char>, column: Seq<char>) -> Seq<char> {
    "SELECT COUNT(*) FROM pragma_table_info('"@ + table + "') WHERE name = '"@ + column + "'"@
}

pub fn probe_query(m: &ColumnMigration) -> (r: String)
    ensures
        r@ == probe_text(m.table@, m.probe@),
{
    let mut out = chars_of("SELECT COUNT(*) FROM pragma_table_info('");
    push_str(&mut out, m.table);
    push_str(&mut out, "') WHERE name = '");
    push_str(&mut out, m.probe);
    push_str(&mut out, "'");
    string_from_chars(out.as_slice())
}

/// The statements of the upgrades whose probe column is missing, in order.
pub open spec fn pending(ms: Seq<MigrationView>, missing: Seq<bool>) -> Seq<Seq<char>>
    decreases ms.len(),
{
    if ms.len() == 0 || missing.len() == 0 {
        Seq::empty()
    } else {
        pending(ms.drop_last(), missing.drop_last()) + if missing.last() {
            ms.last().2
        } else {
            Seq::empty()
        }
    }
}

/// The statements that bring a database up to the schema: the schema's
/// tables and seed rows, then the upgrades whose probe column is missing
/// (`missing[i]` answers for `migrations[i]`), then the schema's indexes.
pub fn migration_plan(statements: &Vec<String>, migrations: &Vec<ColumnMigration>, missing: &Vec<bool>) -> (r: Vec<
    String,
>)
    requires
        missing@.len() == migrations@.len(),
    ensures
        ({
            let v = statements@.map_values(|s: String| s@);
            r@.map_values(|s: String| s@) == v.filter(|s: Seq<char>| !creates_index(s)) + pending(
                migrations@.map_values(|m: ColumnMigration| migration_view(m)),
                missing@,
            ) + v.filter(|s: Seq<char>| creates_index(s))
        }),
{
    let ghost mv = migrations@.map_values(|m: ColumnMigration| migration_view(m));
    let (tables, indexes) = migration_phases(statements);
    let mut out = tables;
    let ghost start = out@.map_values(|s: String| s@);
    let mut i: usize = 0;
    proof {
        assert(mv.take(0).len() == 0);
        assert(pending(mv.take(0), missing@.take(0)) =~= Seq::<Seq<char>>::empty());
        assert(out@.map_values(|s: String| s@) =~= start + pending(mv.take(0), missing@.take(0)));
    }
    while i < migrations.len()
        invariant
            i <= migrations@.len(),
            missing@.len() == migrations@.len(),
            mv == migrations@.map_values(|m: ColumnMigration| migration_view(m)),
            out@.map_values(|s: String| s@) == start + pending(mv.take(i as int), missing@.take(i as int)),
        decreases migrations.len() - i,
    {
        proof {
            assert(mv.take(i + 1).drop_last() == mv.take(i as int));
            assert(missing@.take(i + 1).drop_last() == missing@.take(i as int));
            assert(mv.take(i + 1).last() == migration_view(migrations@[i as int]));
        }
        let ghost before = out@.map_values(|s: String| s@);
        if missing[i] {
            let sts = &migrations[i].statements;
            let mut k: usize = 0;
            while k < sts.len()
                invariant
                    k <= sts@.len(),
                    out@.map_values(|s: String| s@) == before + sts@.map_values(|s: &str| s@).take(k as int),
                decreases sts.len() - k,
            {
                let ghost prev = out@;
                let item = owned(sts[k]);
                out.push(item);
                proof {
                    assert(out@.map_values(|s: String| s@) =~= prev.map_values(|s: String| s@).push(sts@[k as int]@));
                    assert(sts@.map_values(|s: &str| s@).take(k + 1) =~= sts@.map_values(|s: &str| s@).take(
                        k as int,
                    ).push(sts@[k as int]@));
                    assert(out@.map_values(|s: String| s@) =~= before + sts@.map_values(|s: &str| s@).take(
                        k + 1,
                    ));
                }
                k += 1;
            }
            proof {
                assert(sts@.map_values(|s: &str| s@).take(k as int) == sts@.map_values(|s: &str| s@));
                assert(out@.map_values(|s: String| s@) =~= start + pending(mv.take(i + 1), missing@.take(i + 1)));
            }
        } else {
            proof {
                assert(out@.map_values(|s: String| s@) =~= start + pending(mv.take(i + 1), missing@.take(i + 1)));
            }
        }
        i += 1;
    }
    let ghost mid = out@.map_values(|s: String| s@);
    let mut j: usize = 0;
    while j < indexes.len()
        invariant
            j <= indexes@.len(),
            out@.map_values(|s: String| s@) == mid + indexes@.map_values(|s: String| s@).take(j as int),
        decreases indexes.len() - j,
    {
        let ghost prev = out@;
        let item = indexes[j].clone();
        out.push(item);
        proof {
            assert(out@.map_values(|s: String| s@) =~= prev.map_values(|s: String| s@).push(indexes@[j as int]@));
            assert(indexes@.map_values(|s: String| s@).take(j + 1) =~= indexes@.map_values(|s: String| s@).take(
                j as int,
            ).push(indexes@[j as int]@));
            assert(out@.map_values(|s: String| s@) =~= mid + indexes@.map_values(|s: String| s@).take(j + 1));
        }
        j += 1;
    }
    proof {
        assert(indexes@.map_values(|s: String| s@).take(j as int) == indexes@.map_values(|s: String| s@));
        assert(mv.take(i as int) == mv);
        assert(missing@.take(i as int) == missing@);
    }
    out
}

proof fn lemma_filter_all(v: Seq<Seq<char>>, p: spec_fn(Seq<char>) -> bool)
    ensures
        forall|k: int| 0 <= k < v.filter(p).len() ==> p(#[trigger] v.filter(p)[k]),
{
    assert forall|k: int| 0 <= k < v.filter(p).len() implies p(#[trigger] v.filter(p)[k]) by {
        v.lemma_filter_pred(p, k);
    }
}

/// Whatever columns a database lacks, the plan creates no index before a
/// table, seed row or column upgrade, provided no upgrade creates an index:
/// every index statement comes after every other statement.
pub proof fn lemma_indexes_come_last(v: Seq<Seq<char>>, ups: Seq<Seq<char>>)
    requires
        forall|k: int| 0 <= k < ups.len() ==> !creates_index(#[trigger] ups[k]),
    ensures
        ({
            let plan = v.filter(|s: Seq<char>| !creates_index(s)) + ups + v.filter(|s: Seq<char>| creates_index(s));
            forall|i: int, j: int| 0 <= i < j < plan.len() && creates_index(plan[i]) ==> creates_index(plan[j])
        }),
{
    let t = v.filter(|s: Seq<char>| !creates_index(s));
    let x = v.filter(|s: Seq<char>| creates_index(s));
    lemma_filter_all(v, |s: Seq<char>| !creates_index(s));
    lemma_filter_all(v, |s: Seq<char>| creates_index(s));
    let plan = t + ups + x;
    assert forall|i: int, j: int| 0 <= i < j < plan.len() && creates_index(plan[i]) implies creates_index(plan[j]) by {
        if i < t.len() {
            assert(plan[i] == t[i]);
            assert(!creates_index(t[i]));
        } else if i < t.len() + ups.len() {
            assert(plan[i] == ups[i - t.len()]);
        } else {
            assert(plan[j] == x[j - t.len() - ups.len()]);
        }
    }
}

proof fn lemma_pending_no_index(ms: Seq<MigrationView>, missing: Seq<bool>)
    requires
        forall|i: int, k: int| 0 <= i < ms.len() && 0 <= k < ms[i].2.len() ==> !creates_index(#[trigger] ms[i].2[k]),
    ensures
        forall|k: int| 0 <= k < pending(ms, missing).len() ==> !creates_index(#[trigger] pending(ms, missing)[k]),
    decreases ms.len(),
{
    if ms.len() > 0 && missing.len() > 0 {
        let d = ms.drop_last();
        assert forall|i: int, k: int| 0 <= i < d.len() && 0 <= k < d[i].2.len() implies !creates_index(
            #[trigger] d[i].2[k],
        ) by {
            assert(d[i] == ms[i]);
        }
        lemma_pending_no_index(d, missing.drop_last());
        let front = pending(d, missing.drop_last());
        let back = if missing.last() {
            ms.last().2
        } else {
            Seq::<Seq<char>>::empty()
        };
        assert forall|k: int| 0 <= k < pending(ms, missing).len() implies !creates_index(
            #[trigger] pending(ms, missing)[k],
        ) by {
            if k < front.len() {
                assert(pending(ms, missing)[k] == front[k]);
            } else {
                assert(pending(ms, missing)[k] == back[k - front.len()]);
                assert(ms.last() == ms[ms.len() - 1]);
            }
        }
    }
}

/// Whichever columns a database lacks, the plan built from the upgrades
/// creates every index after every table, seed row and column upgrade, so an
/// index never names a column that is not there yet.
pub proof fn lemma_plan_indexes_last(v: Seq<Seq<char>>, missing: Seq<bool>)
    ensures
        ({
            let plan = v.filter(|s: Seq<char>| !creates_index(s)) + pending(upgrades(), missing) + v.filter(
                |s: Seq<char>| creates_index(s),
            );
            forall|i: int, j: int| 0 <= i < j < plan.len() && creates_index(plan[i]) ==> creates_index(plan[j])
        }),
{
    lemma_upgrades_alter_tables();
    lemma_pending_no_index(upgrades(), missing);
    lemma_indexes_come_last(v, pending(upgrades(), missing));
}

// ---------------------------------------------------------------------------
// API keys
// ---------------------------------------------------------------------------

/// What is stored of an API key: the SHA-256 of its text, in hexadecimal.
pub open spec fn key_hash(raw: Seq<char>) -> Seq<char> {
    hex_lower(sha256_digest(encode_utf8(raw)))
}

pub fn hash_key(raw_key: &str) -> (r: String)
    ensures
        r@ == key_hash(raw_key@),
{
    hex_encode(sha256(raw_key.as_bytes()).as_slice())
}

/// Returned once on creation, holding the key's full text.
pub struct ApiKeyCreated {
    pub id: String,
    pub name: String,
    pub key: String,
    pub key_prefix: String,
    pub project_id: Option<String>,
}

/// The text of the API key made from the random digits `a` and `b`: `omni_`,
/// all of `a`, and the first 8 of `b`.
pub open spec fn api_key_text(a: Seq<char>, b: Seq<char>) -> Seq<char> {
    "omni_"@ + a + b.take(8)
}

/// The key made from the random digits `a` and `b`, with what is stored of
/// it: its prefix (the first 8 characters) and its hash.
pub fn api_key_from(a: &str, b: &str) -> (r: (String, String, String))
    requires
        b@.len() >= 8,
    ensures
        r.0@ == api_key_text(a@, b@),
        r.1@ == r.0@.take(8),
        r.2@ == key_hash(r.0@),
{
    let mut k = chars_of("omni_");
    push_all(&mut k, chars_of(a).as_slice());
    let bc = chars_of(b);
    push_all(&mut k, slice(bc.as_slice(), 0, 8).as_slice());
    proof {
        reveal_strlit("omni_");
        assert(k@ == api_key_text(a@, b@));
    }
    let raw = string_from_chars(k.as_slice());
    let prefix = string_from_chars(slice(k.as_slice(), 0, 8).as_slice());
    let hash = hash_key(raw.as_str());
    (raw, prefix, hash)
}

/// A freshly minted key and what is stored of it: its text is `omni_`
/// followed by 40 random hexadecimal digits (a simple version-4 UUID and the
/// first 8 digits of another), its prefix the first 8 characters, its hash
/// that of the text. Nothing when the system has no random number generator
/// to draw from.
pub fn new_api_key() -> (r: Option<(String, String, String)>)
    ensures
        r matches Some(k) ==> {
            &&& exists|a: Seq<char>, b: Seq<char>| #![trigger api_key_text(a, b)]
                is_simple_uuid(a) && is_simple_uuid(b) && k.0@ == api_key_text(a, b)
            &&& k.0@.len() == 45
            &&& has_prefix(k.0@, "omni_"@)
            &&& forall|i: int| 5 <= i < 45 ==> is_lower_hex(#[trigger] k.0@[i])
            &&& k.1@ == k.0@.take(8)
            &&& k.2@ == key_hash(k.0@)
        },
{
    let a = match new_uuid_simple() {
        Some(a) => a,
        None => return None,
    };
    let b = match new_uuid_simple() {
        Some(b) => b,
        None => return None,
    };
    proof {
        lemma_simple_uuid_digits(a@);
        lemma_simple_uuid_digits(b@);
    }
    let k = api_key_from(a.as_str(), b.as_str());
    proof {
        reveal_strlit("omni_");
        let t = k.0@;
        assert(t == api_key_text(a@, b@));
        assert(t.take(5) =~= "omni_"@);
        assert forall|i: int| 5 <= i < 45 implies is_lower_hex(#[trigger] t[i]) by {
            if i < 37 {
                assert(t[i] == a@[i - 5]);
            } else {
                assert(t[i] == b@[i - 37]);
            }
        }
    }
    Some(k)
}

// ---------------------------------------------------------------------------
// Switches
// ---------------------------------------------------------------------------

/// Whether ingest may create a project it has not seen: yes unless
/// `OMNIVORE_ALLOW_PROJECT_AUTOCREATE` is set to `0`, `false`, `no` or `off`.
pub open spec fn autocreate_allowed(setting: Option<Seq<char>>) -> bool {
    match setting {
        Some(v) => {
            let t = ascii_lower(trim(v));
            trim(v).len() == 0 || !(t == "0"@ || t == "false"@ || t == "no"@ || t == "off"@)
        },
        None => true,
    }
}

pub fn auto_create_projects(setting: Option<&str>) -> (b: bool)
    ensures
        b == autocreate_allowed(match setting {
            Some(v) => Some(v@),
            None => None,
        }),
{
    match setting {
        Some(v) => {
            let t = trimmed(chars_of(v).as_slice());
            if t.len() == 0 {
                return true;
            }
            let l = to_ascii_lowercase(t.as_slice());
            let l = l.as_slice();
            !(eq_str(l, "0") || eq_str(l, "false") || eq_str(l, "no") || eq_str(l, "off"))
        },
        None => true,
    }
}

/// A snapshot may raise a ratchet floor when it records no branch, or a
/// branch on the `OMNIVORE_RATCHET_BRANCHES` list (compared up to ASCII
/// case), or `main` or `master` when no list is set.
pub open spec fn ratchet_branch(branch: Option<Seq<char>>, list: Option<Seq<char>>) -> bool {
    let b = match branch {
        Some(v) => trim(v),
        None => Seq::empty(),
    };
    if b.len() == 0 {
        true
    } else {
        match list {
            Some(l) => if trim(l).len() > 0 {
                exists|k: int|
                    0 <= k < split_char(l, ',').len() && trim(#[trigger] split_char(l, ',')[k]).len() > 0
                        && eq_ignore_case(trim(split_char(l, ',')[k]), b)
            } else {
                eq_ignore_case(b, "main"@) || eq_ignore_case(b, "master"@)
            },
            None => eq_ignore_case(b, "main"@) || eq_ignore_case(b, "master"@),
        }
    }
}

pub fn is_ratchet_branch(branch: Option<&str>, list: Option<&str>) -> (r: bool)
    ensures
        r == ratchet_branch(
            match branch {
                Some(v) => Some(v@),
                None => None,
            },
            match list {
                Some(v) => Some(v@),
                None => None,
            },
        ),
{
    let b = match branch {
        Some(v) => trimmed(chars_of(v).as_slice()),
        None => Vec::new(),
    };
    if b.len() == 0 {
        return true;
    }
    let main = chars_of("main");
    let master = chars_of("master");
    let l = match list {
        Some(l) => l,
        None => return eq_ignore_ascii_case(b.as_slice(), main.as_slice()) || eq_ignore_ascii_case(
            b.as_slice(),
            master.as_slice(),
        ),
    };
    let lc = chars_of(l);
    if trimmed(lc.as_slice()).len() == 0 {
        return eq_ignore_ascii_case(b.as_slice(), main.as_slice()) || eq_ignore_ascii_case(
            b.as_slice(),
            master.as_slice(),
        );
    }
    let parts = split(lc.as_slice(), ',');
    let mut k: usize = 0;
    while k < parts.len()
        invariant
            k <= parts@.len(),
            list == Some(l),
            trim(l@).len() > 0,
            b@.len() > 0,
            branch is Some && b@ == trim(branch->Some_0@),
            parts@.len() == split_char(l@, ',').len(),
            forall|q: int| 0 <= q < parts@.len() ==> #[trigger] parts@[q]@ == split_char(l@, ',')[q],
            forall|q: int|
                0 <= q < k ==> !(trim(#[trigger] split_char(l@, ',')[q]).len() > 0 && eq_ignore_case(
                    trim(split_char(l@, ',')[q]),
                    b@,
                )),
        decreases parts.len() - k,
    {
        let name = trimmed(parts[k].as_slice());
        if name.len() > 0 && eq_ignore_ascii_case(name.as_slice(), b.as_slice()) {
            proof {
                assert(parts@[k as int]@ == split_char(l@, ',')[k as int]);
                assert(trim(split_char(l@, ',')[k as int]).len() > 0 && eq_ignore_case(
                    trim(split_char(l@, ',')[k as int]),
                    b@,
                ));
            }
            return true;
        }
        k += 1;
    }
    false
}

/// What ingesting coverage for `project_id` does about its project: nothing
/// when it exists; create it (under `project_name`, else its id) when it does
/// not and auto-creation is allowed; refuse otherwise.
pub fn project_for_ingest(exists: bool, autocreate: bool, project_id: &str, project_name: Option<&str>) -> (r: Result<
    Option<(String, String)>,
    String,
>)
    ensures
        exists ==> r == Ok::<Option<(String, String)>, String>(None),
        !exists && !autocreate ==> (r matches Err(m) && m@ == "Project '"@ + project_id@
            + "' does not exist and OMNIVORE_ALLOW_PROJECT_AUTOCREATE is disabled"@),
        !exists && autocreate ==> (r matches Ok(Some((id, name))) && id@ == project_id@ && name@ == match project_name {
            Some(n) => n@,
            None => project_id@,
        }),
{
    if exists {
        return Ok(None);
    }
    if !autocreate {
        let mut m = chars_of("Project '");
        push_str(&mut m, project_id);
        push_str(&mut m, "' does not exist and OMNIVORE_ALLOW_PROJECT_AUTOCREATE is disabled");
        return Err(string_from_chars(m.as_slice()));
    }
    let name = match project_name {
        Some(n) => owned(n),
        None => owned(project_id),
    };
    Ok(Some((owned(project_id), name)))
}

} // verus!

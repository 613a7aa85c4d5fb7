//! Command-line decisions: which command the arguments ask for, and the
//! lease table that `leases` prints.
use vstd::prelude::*;

use crate::config::model::StaticLease;
use crate::config::DhcpConfig;
use crate::lease::model::{host_or_dash, kind_label, Lease, LeaseKind, LeaseView};
use crate::lease::store::{insert_by_ip, sort_by_ip, views, LeaseStore};
use crate::util::ip::{ip_text, push_ip};
use crate::util::log::Level;
use crate::util::mac::{mac_text, push_mac};
use crate::util::text::{chars_of, dec, eq_str, pad_right, push_chars, push_dec, push_padded, push_str, string_of};

verus! {

/// The texts of a list of strings.
pub open spec fn arg_texts(v: Seq<String>) -> Seq<Seq<char>> {
    v.map_values(|s: String| s@)
}

/// The config path named by the arguments after a subcommand: `-c <path>`
/// or `--config <path>`.
pub open spec fn spec_config_path(rest: Seq<Seq<char>>) -> Result<Seq<char>, Seq<char>> {
    if rest.len() == 0 {
        Err("missing -c <config>"@)
    } else if rest[0] == "-c"@ || rest[0] == "--config"@ {
        if rest.len() >= 2 {
            Ok(rest[1])
        } else {
            Err("option -c requires a path"@)
        }
    } else {
        Err("unexpected argument '"@ + rest[0] + "', expected -c <config>"@)
    }
}

/// The config path for `check` and `leases`, which also take a bare path:
/// a first argument that does not start with `-` is the path itself.
pub open spec fn spec_path_arg(rest: Seq<Seq<char>>) -> Result<Seq<char>, Seq<char>> {
    if rest.len() > 0 && !(rest[0].len() > 0 && rest[0][0] == '-') {
        Ok(rest[0])
    } else {
        spec_config_path(rest)
    }
}

/// Extract the value of `-c`/`--config` from the remaining arguments.
pub fn config_path(rest: &[String]) -> (r: Result<String, String>)
    ensures
        match r {
            Ok(p) => spec_config_path(arg_texts(rest@)) == Ok::<Seq<char>, Seq<char>>(p@),
            Err(e) => spec_config_path(arg_texts(rest@)) == Err::<Seq<char>, Seq<char>>(e@),
        },
{
    if rest.len() == 0 {
        return Err("missing -c <config>".to_owned());
    }
    let first = chars_of(rest[0].as_str());
    assert(arg_texts(rest@)[0] == first@);
    if eq_str(&first, "-c") || eq_str(&first, "--config") {
        if rest.len() >= 2 {
            assert(arg_texts(rest@)[1] == rest[1]@);
            Ok(rest[1].clone())
        } else {
            Err("option -c requires a path".to_owned())
        }
    } else {
        let mut out: Vec<char> = Vec::new();
        push_str(&mut out, "unexpected argument '");
        push_chars(&mut out, &first);
        push_str(&mut out, "', expected -c <config>");
        Err(string_of(&out))
    }
}

/// The config path for `check` and `leases`: a bare path, or as
/// [`config_path`] reads it.
pub fn path_arg(rest: &[String]) -> (r: Result<String, String>)
    ensures
        match r {
            Ok(p) => spec_path_arg(arg_texts(rest@)) == Ok::<Seq<char>, Seq<char>>(p@),
            Err(e) => spec_path_arg(arg_texts(rest@)) == Err::<Seq<char>, Seq<char>>(e@),
        },
{
    if rest.len() > 0 {
        let first = chars_of(rest[0].as_str());
        assert(arg_texts(rest@)[0] == first@);
        if !(first.len() > 0 && first[0] == '-') {
            return Ok(rest[0].clone());
        }
    }
    config_path(rest)
}

/// What the command line asks for.
pub enum Command {
    /// No arguments: print the help and fail.
    Usage,
    /// `help`, `-h`, `--help`.
    Help,
    /// `run <config>`, or a bare config path.
    Run(String),
    /// `check <config>`.
    Check(String),
    /// `leases <config>`.
    Leases(String),
}

/// A command as plain values.
pub enum CommandView {
    Usage,
    Help,
    Run(Seq<char>),
    Check(Seq<char>),
    Leases(Seq<char>),
}

impl View for Command {
    type V = CommandView;

    open spec fn view(&self) -> CommandView {
        match self {
            Command::Usage => CommandView::Usage,
            Command::Help => CommandView::Help,
            Command::Run(p) => CommandView::Run(p@),
            Command::Check(p) => CommandView::Check(p@),
            Command::Leases(p) => CommandView::Leases(p@),
        }
    }
}

/// The command the arguments `args` (program name excluded) ask for.
pub open spec fn spec_command(args: Seq<Seq<char>>) -> Result<CommandView, Seq<char>> {
    if args.len() == 0 {
        Ok(CommandView::Usage)
    } else {
        let first = args[0];
        let rest = args.drop_first();
        if first == "help"@ || first == "-h"@ || first == "--help"@ {
            Ok(CommandView::Help)
        } else if first == "run"@ {
            match spec_config_path(rest) {
                Ok(p) => Ok(CommandView::Run(p)),
                Err(e) => Err(e),
            }
        } else if first == "check"@ {
            match spec_path_arg(rest) {
                Ok(p) => Ok(CommandView::Check(p)),
                Err(e) => Err(e),
            }
        } else if first == "leases"@ {
            match spec_path_arg(rest) {
                Ok(p) => Ok(CommandView::Leases(p)),
                Err(e) => Err(e),
            }
        } else {
            Ok(CommandView::Run(first))
        }
    }
}

/// Decide the command from the arguments (program name excluded).
pub fn command(args: &[String]) -> (r: Result<Command, String>)
    ensures
        match r {
            Ok(c) => spec_command(arg_texts(args@)) == Ok::<CommandView, Seq<char>>(c@),
            Err(e) => spec_command(arg_texts(args@)) == Err::<CommandView, Seq<char>>(e@),
        },
{
    if args.len() == 0 {
        return Ok(Command::Usage);
    }
    let first = chars_of(args[0].as_str());
    let rest = &args[1..args.len()];
    assert(arg_texts(args@)[0] == first@);
    assert(arg_texts(rest@) =~= arg_texts(args@).drop_first());
    if eq_str(&first, "help") || eq_str(&first, "-h") || eq_str(&first, "--help") {
        Ok(Command::Help)
    } else if eq_str(&first, "run") {
        match config_path(rest) {
            Ok(p) => Ok(Command::Run(p)),
            Err(e) => Err(e),
        }
    } else if eq_str(&first, "check") {
        match path_arg(rest) {
            Ok(p) => Ok(Command::Check(p)),
            Err(e) => Err(e),
        }
    } else if eq_str(&first, "leases") {
        match path_arg(rest) {
            Ok(p) => Ok(Command::Leases(p)),
            Err(e) => Err(e),
        }
    } else {
        Ok(Command::Run(args[0].clone()))
    }
}

/// The log level the flags among `args` set, and the arguments without
/// them: `-q`/`--quiet` keeps warnings and errors, `-v`/`--verbose` adds
/// debug lines, the default shows informational lines; the last flag wins.
pub open spec fn spec_level_flags(args: Seq<Seq<char>>) -> (Level, Seq<Seq<char>>)
    decreases args.len(),
{
    if args.len() == 0 {
        (Level::Info, Seq::empty())
    } else {
        let (lv, rest) = spec_level_flags(args.drop_last());
        let a = args.last();
        if a == "-q"@ || a == "--quiet"@ {
            (Level::Warn, rest)
        } else if a == "-v"@ || a == "--verbose"@ {
            (Level::Debug, rest)
        } else {
            (lv, rest.push(a))
        }
    }
}

/// Read the log-level flags out of the arguments (see [`spec_level_flags`]).
pub fn level_flags(args: &[String]) -> (r: (Level, Vec<String>))
    ensures
        r.0 == spec_level_flags(arg_texts(args@)).0,
        arg_texts(r.1@) == spec_level_flags(arg_texts(args@)).1,
{
    let mut level = Level::Info;
    let mut rest: Vec<String> = Vec::new();
    let mut i: usize = 0;
    assert(arg_texts(args@).take(0) =~= Seq::<Seq<char>>::empty());
    assert(arg_texts(rest@) =~= Seq::<Seq<char>>::empty());
    while i < args.len()
        invariant
            i <= args.len(),
            level == spec_level_flags(arg_texts(args@).take(i as int)).0,
            arg_texts(rest@) == spec_level_flags(arg_texts(args@).take(i as int)).1,
        decreases args.len() - i,
    {
        let ghost before = arg_texts(rest@);
        let a = chars_of(args[i].as_str());
        assert(arg_texts(args@).take(i + 1).drop_last() =~= arg_texts(args@).take(i as int));
        assert(arg_texts(args@).take(i + 1).last() == a@);
        if eq_str(&a, "-q") || eq_str(&a, "--quiet") {
            level = Level::Warn;
        } else if eq_str(&a, "-v") || eq_str(&a, "--verbose") {
            level = Level::Debug;
        } else {
            rest.push(args[i].clone());
            assert(arg_texts(rest@) =~= before.push(a@));
        }
        i += 1;
    }
    assert(arg_texts(args@).take(args.len() as int) =~= arg_texts(args@));
    (level, rest)
}

/// The static bindings shown as leases: kind static, the binding's name as
/// hostname, no expiry.
pub open spec fn static_rows(st: Seq<StaticLease>) -> Seq<LeaseView> {
    st.map_values(
        |s: StaticLease|
            LeaseView {
                mac: s.mac@,
                ip: s.ip.0,
                hostname: Some(s.name@),
                expires_at: 0,
                kind: LeaseKind::Static,
            },
    )
}

/// Insert `x` into the address-sorted `out` after every entry whose address
/// is not greater.
fn insert_row(out: &mut Vec<Lease>, x: Lease)
    ensures
        views(final(out)@) == insert_by_ip(views(old(out)@), x@),
{
    let ghost before = views(out@);
    let mut j = out.len();
    while j > 0 && out[j - 1].ip.0 > x.ip.0
        invariant
            j <= out.len(),
            before == views(out@),
            forall|k: int| j <= k < before.len() ==> #[trigger] before[k].ip > x.ip.0,
        decreases j,
    {
        assert(before[j - 1] == out[j - 1]@);
        j -= 1;
    }
    if j > 0 {
        assert(before[j - 1] == out[j - 1]@);
    }
    proof {
        crate::lease::store::lemma_insert_by_ip_split(before, x@, j as int);
    }
    let ghost xv = x@;
    out.insert(j, x);
    assert(views(out@) =~= before.take(j as int).push(xv) + before.skip(j as int));
}

/// Static bindings and dynamic leases in one table, stably sorted by IP
/// (bindings first among equal addresses).
pub fn lease_table(cfg: &DhcpConfig, store: &LeaseStore) -> (r: Vec<Lease>)
    ensures
        views(r@) == sort_by_ip(static_rows(cfg.statics@) + store.seq()),
{
    let ghost all = static_rows(cfg.statics@) + store.seq();
    let mut out: Vec<Lease> = Vec::new();
    let mut i: usize = 0;
    assert(all.take(0) =~= Seq::<LeaseView>::empty());
    assert(views(out@) =~= sort_by_ip(all.take(0)));
    while i < cfg.statics.len()
        invariant
            i <= cfg.statics.len(),
            all == static_rows(cfg.statics@) + store.seq(),
            views(out@) == sort_by_ip(all.take(i as int)),
        decreases cfg.statics.len() - i,
    {
        let s = &cfg.statics[i];
        let row = Lease {
            mac: s.mac,
            ip: s.ip,
            hostname: Some(s.name.clone()),
            expires_at: 0,
            kind: LeaseKind::Static,
        };
        assert(row@ == all[i as int]);
        insert_row(&mut out, row);
        assert(all.take(i + 1).drop_last() =~= all.take(i as int));
        i += 1;
    }
    let n = cfg.statics.len();
    let leases = store.leases();
    let mut k: usize = 0;
    while k < leases.len()
        invariant
            k <= leases.len(),
            n == cfg.statics.len(),
            all == static_rows(cfg.statics@) + store.seq(),
            leases@.map_values(|l: Lease| l@) == store.seq(),
            views(out@) == sort_by_ip(all.take(n + k)),
        decreases leases.len() - k,
    {
        let row = leases[k].duplicate();
        assert(row@ == all[n + k]);
        insert_row(&mut out, row);
        assert(all.take(n + k + 1).drop_last() =~= all.take(n + k));
        k += 1;
    }
    assert(all.take(n + leases.len()) =~= all);
    out
}

/// The expiry column: `-` for none (zero), else the timestamp.
pub open spec fn expiry_text(t: u64) -> Seq<char> {
    if t == 0 {
        "-"@
    } else {
        dec(t as nat)
    }
}

/// One row of the lease table.
pub open spec fn row_text(l: LeaseView) -> Seq<char> {
    pad_right(kind_label(l.kind), 8) + seq![' '] + pad_right(mac_text(l.mac), 17) + seq![' ']
        + pad_right(ip_text(l.ip), 15) + seq![' '] + pad_right(host_or_dash(l.hostname), 16) + seq![
        ' ',
    ] + expiry_text(l.expires_at)
}

/// The header of the lease table.
pub open spec fn header_text() -> Seq<char> {
    pad_right("KIND"@, 8) + seq![' '] + pad_right("MAC"@, 17) + seq![' '] + pad_right("IP"@, 15)
        + seq![' '] + pad_right("NAME/HOST"@, 16) + seq![' '] + "EXPIRES"@
}

/// The header line of the lease table.
pub fn table_header() -> (r: String)
    ensures
        r@ == header_text(),
{
    let mut out: Vec<char> = Vec::new();
    push_padded(&mut out, &chars_of("KIND"), 8);
    out.push(' ');
    push_padded(&mut out, &chars_of("MAC"), 17);
    out.push(' ');
    push_padded(&mut out, &chars_of("IP"), 15);
    out.push(' ');
    push_padded(&mut out, &chars_of("NAME/HOST"), 16);
    out.push(' ');
    push_str(&mut out, "EXPIRES");
    assert(out@ =~= header_text());
    string_of(&out)
}

/// One row of the lease table.
pub fn table_row(l: &Lease) -> (r: String)
    ensures
        r@ == row_text(l@),
{
    let mut out: Vec<char> = Vec::new();
    push_padded(&mut out, &chars_of(l.kind.label()), 8);
    out.push(' ');
    let mut mac: Vec<char> = Vec::new();
    push_mac(&mut mac, l.mac);
    push_padded(&mut out, &mac, 17);
    out.push(' ');
    let mut ip: Vec<char> = Vec::new();
    push_ip(&mut ip, l.ip);
    push_padded(&mut out, &ip, 15);
    out.push(' ');
    push_padded(&mut out, &chars_of(l.hostname_str()), 16);
    out.push(' ');
    if l.expires_at == 0 {
        push_str(&mut out, "-");
    } else {
        push_dec(&mut out, l.expires_at);
    }
    assert(out@ =~= row_text(l@));
    string_of(&out)
}

}

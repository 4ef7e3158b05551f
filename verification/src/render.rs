use vstd::prelude::*;
use crate::codec::dec_spec;
use crate::codec::u64_to_dec;
use crate::codec::push_all;
use crate::evaluate::Report;

verus! {

/// The bytes of `online, players present`.
pub open spec fn lit_players_present() -> Seq<u8> {
    seq!['o' as u8, 'n' as u8, 'l' as u8, 'i' as u8, 'n' as u8, 'e' as u8, ',' as u8, ' ' as u8, 'p' as u8, 'l' as u8, 'a' as u8, 'y' as u8, 'e' as u8, 'r' as u8, 's' as u8, ' ' as u8, 'p' as u8, 'r' as u8, 'e' as u8, 's' as u8, 'e' as u8, 'n' as u8, 't' as u8]
}

fn players_present_bytes() -> (b: Vec<u8>)
    ensures
        b@ == lit_players_present(),
{
    let mut b: Vec<u8> = Vec::new();
    b.push('o' as u8);
    b.push('n' as u8);
    b.push('l' as u8);
    b.push('i' as u8);
    b.push('n' as u8);
    b.push('e' as u8);
    b.push(',' as u8);
    b.push(' ' as u8);
    b.push('p' as u8);
    b.push('l' as u8);
    b.push('a' as u8);
    b.push('y' as u8);
    b.push('e' as u8);
    b.push('r' as u8);
    b.push('s' as u8);
    b.push(' ' as u8);
    b.push('p' as u8);
    b.push('r' as u8);
    b.push('e' as u8);
    b.push('s' as u8);
    b.push('e' as u8);
    b.push('n' as u8);
    b.push('t' as u8);
    proof {
        assert(b@ =~= lit_players_present());
    }
    b
}

/// The bytes of `online, no players`.
pub open spec fn lit_no_players() -> Seq<u8> {
    seq!['o' as u8, 'n' as u8, 'l' as u8, 'i' as u8, 'n' as u8, 'e' as u8, ',' as u8, ' ' as u8, 'n' as u8, 'o' as u8, ' ' as u8, 'p' as u8, 'l' as u8, 'a' as u8, 'y' as u8, 'e' as u8, 'r' as u8, 's' as u8]
}

fn no_players_bytes() -> (b: Vec<u8>)
    ensures
        b@ == lit_no_players(),
{
    let mut b: Vec<u8> = Vec::new();
    b.push('o' as u8);
    b.push('n' as u8);
    b.push('l' as u8);
    b.push('i' as u8);
    b.push('n' as u8);
    b.push('e' as u8);
    b.push(',' as u8);
    b.push(' ' as u8);
    b.push('n' as u8);
    b.push('o' as u8);
    b.push(' ' as u8);
    b.push('p' as u8);
    b.push('l' as u8);
    b.push('a' as u8);
    b.push('y' as u8);
    b.push('e' as u8);
    b.push('r' as u8);
    b.push('s' as u8);
    proof {
        assert(b@ =~= lit_no_players());
    }
    b
}

/// The bytes of `, last activity seen `.
pub open spec fn lit_last_activity() -> Seq<u8> {
    seq![',' as u8, ' ' as u8, 'l' as u8, 'a' as u8, 's' as u8, 't' as u8, ' ' as u8, 'a' as u8, 'c' as u8, 't' as u8, 'i' as u8, 'v' as u8, 'i' as u8, 't' as u8, 'y' as u8, ' ' as u8, 's' as u8, 'e' as u8, 'e' as u8, 'n' as u8, ' ' as u8]
}

fn last_activity_bytes() -> (b: Vec<u8>)
    ensures
        b@ == lit_last_activity(),
{
    let mut b: Vec<u8> = Vec::new();
    b.push(',' as u8);
    b.push(' ' as u8);
    b.push('l' as u8);
    b.push('a' as u8);
    b.push('s' as u8);
    b.push('t' as u8);
    b.push(' ' as u8);
    b.push('a' as u8);
    b.push('c' as u8);
    b.push('t' as u8);
    b.push('i' as u8);
    b.push('v' as u8);
    b.push('i' as u8);
    b.push('t' as u8);
    b.push('y' as u8);
    b.push(' ' as u8);
    b.push('s' as u8);
    b.push('e' as u8);
    b.push('e' as u8);
    b.push('n' as u8);
    b.push(' ' as u8);
    proof {
        assert(b@ =~= lit_last_activity());
    }
    b
}

/// The bytes of `, `.
pub open spec fn lit_count_sep() -> Seq<u8> {
    seq![',' as u8, ' ' as u8]
}

fn count_sep_bytes() -> (b: Vec<u8>)
    ensures
        b@ == lit_count_sep(),
{
    let mut b: Vec<u8> = Vec::new();
    b.push(',' as u8);
    b.push(' ' as u8);
    proof {
        assert(b@ =~= lit_count_sep());
    }
    b
}

/// The bytes of `/`.
pub open spec fn lit_slash() -> Seq<u8> {
    seq!['/' as u8]
}

fn slash_bytes() -> (b: Vec<u8>)
    ensures
        b@ == lit_slash(),
{
    let mut b: Vec<u8> = Vec::new();
    b.push('/' as u8);
    proof {
        assert(b@ =~= lit_slash());
    }
    b
}

/// The bytes of ` players (ping `.
pub open spec fn lit_ping_open() -> Seq<u8> {
    seq![' ' as u8, 'p' as u8, 'l' as u8, 'a' as u8, 'y' as u8, 'e' as u8, 'r' as u8, 's' as u8, ' ' as u8, '(' as u8, 'p' as u8, 'i' as u8, 'n' as u8, 'g' as u8, ' ' as u8]
}

fn ping_open_bytes() -> (b: Vec<u8>)
    ensures
        b@ == lit_ping_open(),
{
    let mut b: Vec<u8> = Vec::new();
    b.push(' ' as u8);
    b.push('p' as u8);
    b.push('l' as u8);
    b.push('a' as u8);
    b.push('y' as u8);
    b.push('e' as u8);
    b.push('r' as u8);
    b.push('s' as u8);
    b.push(' ' as u8);
    b.push('(' as u8);
    b.push('p' as u8);
    b.push('i' as u8);
    b.push('n' as u8);
    b.push('g' as u8);
    b.push(' ' as u8);
    proof {
        assert(b@ =~= lit_ping_open());
    }
    b
}

/// The bytes of `ms)`.
pub open spec fn lit_ping_close() -> Seq<u8> {
    seq!['m' as u8, 's' as u8, ')' as u8]
}

fn ping_close_bytes() -> (b: Vec<u8>)
    ensures
        b@ == lit_ping_close(),
{
    let mut b: Vec<u8> = Vec::new();
    b.push('m' as u8);
    b.push('s' as u8);
    b.push(')' as u8);
    proof {
        assert(b@ =~= lit_ping_close());
    }
    b
}

/// The bytes of `offline`.
pub open spec fn lit_offline() -> Seq<u8> {
    seq!['o' as u8, 'f' as u8, 'f' as u8, 'l' as u8, 'i' as u8, 'n' as u8, 'e' as u8]
}

fn offline_bytes() -> (b: Vec<u8>)
    ensures
        b@ == lit_offline(),
{
    let mut b: Vec<u8> = Vec::new();
    b.push('o' as u8);
    b.push('f' as u8);
    b.push('f' as u8);
    b.push('l' as u8);
    b.push('i' as u8);
    b.push('n' as u8);
    b.push('e' as u8);
    proof {
        assert(b@ =~= lit_offline());
    }
    b
}

/// The bytes of `, last online at `.
pub open spec fn lit_last_online() -> Seq<u8> {
    seq![',' as u8, ' ' as u8, 'l' as u8, 'a' as u8, 's' as u8, 't' as u8, ' ' as u8, 'o' as u8, 'n' as u8, 'l' as u8, 'i' as u8, 'n' as u8, 'e' as u8, ' ' as u8, 'a' as u8, 't' as u8, ' ' as u8]
}

fn last_online_bytes() -> (b: Vec<u8>)
    ensures
        b@ == lit_last_online(),
{
    let mut b: Vec<u8> = Vec::new();
    b.push(',' as u8);
    b.push(' ' as u8);
    b.push('l' as u8);
    b.push('a' as u8);
    b.push('s' as u8);
    b.push('t' as u8);
    b.push(' ' as u8);
    b.push('o' as u8);
    b.push('n' as u8);
    b.push('l' as u8);
    b.push('i' as u8);
    b.push('n' as u8);
    b.push('e' as u8);
    b.push(' ' as u8);
    b.push('a' as u8);
    b.push('t' as u8);
    b.push(' ' as u8);
    proof {
        assert(b@ =~= lit_last_online());
    }
    b
}

/// The bytes of `\n`.
pub open spec fn lit_newline() -> Seq<u8> {
    seq!['\n' as u8]
}

fn newline_bytes() -> (b: Vec<u8>)
    ensures
        b@ == lit_newline(),
{
    let mut b: Vec<u8> = Vec::new();
    b.push('\n' as u8);
    proof {
        assert(b@ =~= lit_newline());
    }
    b
}

/// The annotation rendered into a line: nothing, or a marker phrase
/// followed by the formatted instant.
pub open spec fn ann_part(marker: Seq<u8>, ann: Option<Seq<u8>>) -> Seq<u8> {
    match ann {
        Some(a) => marker + a,
        None => Seq::<u8>::empty(),
    }
}

/// The exact bytes of the one-line report.  An online line carries the
/// player presence phrase, the optional last-activity annotation, the
/// player count over the capacity, and the round trip in whole
/// milliseconds; an offline line carries the optional last-online
/// annotation.  Every line ends with a newline and nothing follows it.
pub open spec fn line_spec(
    online: bool,
    player_count: u32,
    max_players: u32,
    round_trip_ms: u64,
    ann: Option<Seq<u8>>,
) -> Seq<u8> {
    if online {
        (if player_count > 0 {
            lit_players_present()
        } else {
            lit_no_players()
        }) + ann_part(lit_last_activity(), ann) + lit_count_sep() + dec_spec(
            player_count as nat,
        ) + lit_slash() + dec_spec(max_players as nat) + lit_ping_open() + dec_spec(
            round_trip_ms as nat,
        ) + lit_ping_close() + lit_newline()
    } else {
        lit_offline() + ann_part(lit_last_online(), ann) + lit_newline()
    }
}

/// The view of an optional borrowed annotation.
pub open spec fn ann_view(annotation: Option<&Vec<u8>>) -> Option<Seq<u8>> {
    match annotation {
        Some(a) => Some(a@),
        None => None,
    }
}

/// Render the one-line status report from a report and the formatted
/// annotation instant, if the report carries one.  The annotation text is a
/// presentation concern: the caller formats the instant and hands the bytes
/// in.
pub fn render_report(report: &Report, annotation: Option<&Vec<u8>>) -> (line: Vec<u8>)
    ensures
        line@ == line_spec(
            report.online,
            report.player_count,
            report.max_players,
            report.round_trip_ms,
            ann_view(annotation),
        ),
{
    let mut line: Vec<u8>;
    if report.online {
        if report.player_count > 0 {
            line = players_present_bytes();
        } else {
            line = no_players_bytes();
        }
        match annotation {
            Some(a) => {
                let m = last_activity_bytes();
                push_all(&mut line, &m);
                push_all(&mut line, a);
            },
            None => {},
        }
        let sep = count_sep_bytes();
        push_all(&mut line, &sep);
        let pc = u64_to_dec(report.player_count as u64);
        push_all(&mut line, &pc);
        let sl = slash_bytes();
        push_all(&mut line, &sl);
        let mx = u64_to_dec(report.max_players as u64);
        push_all(&mut line, &mx);
        let po = ping_open_bytes();
        push_all(&mut line, &po);
        let ms = u64_to_dec(report.round_trip_ms);
        push_all(&mut line, &ms);
        let pc2 = ping_close_bytes();
        push_all(&mut line, &pc2);
        let nl = newline_bytes();
        push_all(&mut line, &nl);
        proof {
            assert(line@ =~= line_spec(
                report.online,
                report.player_count,
                report.max_players,
                report.round_trip_ms,
                ann_view(annotation),
            ));
        }
    } else {
        line = offline_bytes();
        match annotation {
            Some(a) => {
                let m = last_online_bytes();
                push_all(&mut line, &m);
                push_all(&mut line, a);
            },
            None => {},
        }
        let nl = newline_bytes();
        push_all(&mut line, &nl);
        proof {
            assert(line@ =~= line_spec(
                report.online,
                report.player_count,
                report.max_players,
                report.round_trip_ms,
                ann_view(annotation),
            ));
        }
    }
    line
}

} // verus!

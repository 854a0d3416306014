//! Command-line argument interpretation: which mode to run in and
//! which files to watch, decided from the raw argument words.

use vstd::prelude::*;
use crate::paths::bytes_eq;
use crate::paths::comps_view;

verus! {

/// The word that selects client mode.
pub open spec fn client_word() -> Seq<u8> {
    seq![99u8, 108u8, 105u8, 101u8, 110u8, 116u8]
}

/// The flag that starts the list of files to watch.
pub open spec fn files_flag() -> Seq<u8> {
    seq![45u8, 102u8]
}

/// What the arguments decide: the mode and the watch list. The
/// transfer target comes from the environment, not from here.
pub struct ArgSettings {
    pub is_client: bool,
    pub files_to_watch: Vec<Vec<u8>>,
    pub transfer_to: Option<Vec<u8>>,
}

/// The meaning of the arguments from position `i` on, given whether a
/// file list is open: the mode flag and the files collected. The word
/// `client` outside a file list selects client mode and ends the
/// scan; `-f` opens the file list; any other dash word closes it;
/// other words are files exactly while the list is open.
pub open spec fn parse_spec(args: Seq<Seq<u8>>, i: int, for_files: bool) -> (bool, Seq<Seq<u8>>)
    decreases args.len() - i,
    when 0 <= i <= args.len()
{
    if i >= args.len() {
        (false, Seq::empty())
    } else {
        let a = args[i];
        if !for_files && a == client_word() {
            (true, Seq::empty())
        } else if a == files_flag() {
            parse_spec(args, i + 1, true)
        } else if a.len() > 0 && a[0] == 45u8 {
            parse_spec(args, i + 1, false)
        } else if for_files {
            let rest = parse_spec(args, i + 1, true);
            (rest.0, seq![a] + rest.1)
        } else {
            parse_spec(args, i + 1, false)
        }
    }
}

/// Reads the argument words (the program name already dropped):
/// exactly the files named while a `-f` list is open are watched, and
/// the bare word `client` selects client mode and stops the scan.
pub fn parse_args(args: &Vec<Vec<u8>>) -> (r: ArgSettings)
    ensures
        r.is_client == parse_spec(comps_view(args@), 0, false).0,
        comps_view(r.files_to_watch@) == parse_spec(comps_view(args@), 0, false).1,
        r.transfer_to is None,
{
    let ghost v = comps_view(args@);
    let client: Vec<u8> = vec![99u8, 108u8, 105u8, 101u8, 110u8, 116u8];
    let flag: Vec<u8> = vec![45u8, 102u8];
    proof {
        assert(client@ =~= client_word());
        assert(flag@ =~= files_flag());
    }
    let mut files: Vec<Vec<u8>> = Vec::new();
    let mut for_files = false;
    let mut is_client = false;
    let mut i: usize = 0;
    while i < args.len()
        invariant_except_break
            !is_client,
            parse_spec(v, 0, false) == (
                parse_spec(v, i as int, for_files).0,
                comps_view(files@) + parse_spec(v, i as int, for_files).1,
            ),
        invariant
            v == comps_view(args@),
            client@ == client_word(),
            flag@ == files_flag(),
            0 <= i <= args@.len(),
            v.len() == args@.len(),
        ensures
            parse_spec(v, 0, false) == (is_client, comps_view(files@)),
        decreases args@.len() - i,
    {
        let a = &args[i];
        proof {
            assert(a@ == v[i as int]);
        }
        if !for_files && bytes_eq(a, &client) {
            is_client = true;
            proof {
                assert(parse_spec(v, i as int, for_files) == (true, Seq::<Seq<u8>>::empty()));
                assert(comps_view(files@) + Seq::<Seq<u8>>::empty() =~= comps_view(files@));
            }
            break ;
        }
        if bytes_eq(a, &flag) {
            for_files = true;
        } else if a.len() > 0 && a[0] == 45u8 {
            for_files = false;
        } else if for_files {
            let ghost fpre = files@;
            files.push(crate::codec::subvec(a, 0, a.len()));
            proof {
                assert(files@.last()@ =~= v[i as int]);
                assert(comps_view(files@) =~= comps_view(fpre).push(v[i as int]));
                let rest = parse_spec(v, i + 1, true);
                assert(parse_spec(v, i as int, true) == (rest.0, seq![v[i as int]] + rest.1));
                assert(comps_view(fpre) + (seq![v[i as int]] + rest.1) =~= comps_view(files@)
                    + rest.1);
            }
        }
        i = i + 1;
    }
    proof {
        if i >= args@.len() && !is_client {
            assert(parse_spec(v, i as int, for_files) == (false, Seq::<Seq<u8>>::empty()));
            assert(comps_view(files@) + Seq::<Seq<u8>>::empty() =~= comps_view(files@));
        }
    }
    ArgSettings { is_client, files_to_watch: files, transfer_to: None }
}

} // verus!

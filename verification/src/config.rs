use vstd::prelude::*;
use vstd::string::StringExecFns;
use crate::error::Error;

verus! {

/// One configured reconciliation loop: a name, the credential for the
/// secrets provider, and the ordered list of service-name tokens it manages.
#[derive(Debug, Clone)]
pub struct Watcher {
    pub name: String,
    pub doppler_token: String,
    pub docker_services: Vec<String>,
}

/// The static configuration: the ordered list of watchers.
#[derive(Debug, Clone)]
pub struct Config {
    pub watchers: Vec<Watcher>,
}

/// The field-level validation error of one watcher, if any: its name, its
/// token and its service list must all be non-empty, checked in that order.
pub open spec fn watcher_error(w: Watcher) -> Option<Seq<char>> {
    if w.name@.len() == 0 {
        Some("Configuration error: watcher name cannot be empty"@)
    } else if w.doppler_token@.len() == 0 {
        Some("Configuration error: doppler token cannot be empty"@)
    } else if w.docker_services@.len() == 0 {
        Some("Configuration error: docker services cannot be empty"@)
    } else {
        None
    }
}

/// The first field-level error over a list of watchers.
pub open spec fn first_watcher_error(ws: Seq<Watcher>) -> Option<Seq<char>>
    decreases ws.len(),
{
    if ws.len() == 0 {
        None
    } else if watcher_error(ws[0]) is Some {
        watcher_error(ws[0])
    } else {
        first_watcher_error(ws.drop_first())
    }
}

/// Every service token of every watcher, flattened in configuration order.
pub open spec fn all_services(ws: Seq<Watcher>) -> Seq<Seq<char>>
    decreases ws.len(),
{
    if ws.len() == 0 {
        Seq::empty()
    } else {
        all_services(ws.drop_last()) + ws.last().docker_services.deep_view()
    }
}

/// The first name in `s` that already occurred earlier in `s`, scanning
/// from position `i`, given that no duplicate occurs before `i`.
pub open spec fn first_dup_from(s: Seq<Seq<char>>, i: int) -> Option<Seq<char>>
    decreases s.len() - i,
{
    if i < 0 || i >= s.len() {
        None
    } else if s.take(i).contains(s[i]) {
        Some(s[i])
    } else {
        first_dup_from(s, i + 1)
    }
}

/// The first service name used by more than one token, if any.
pub open spec fn first_dup(s: Seq<Seq<char>>) -> Option<Seq<char>> {
    first_dup_from(s, 0)
}

/// The message reported when one service is claimed by several watchers.
pub open spec fn msg_duplicate_service(name: Seq<char>) -> Seq<char> {
    "Configuration error: service "@ + name + " is used in multiple watchers"@
}

proof fn lemma_first_watcher_error_at(ws: Seq<Watcher>, i: int)
    requires
        0 <= i <= ws.len(),
        forall|j: int| 0 <= j < i ==> watcher_error(ws[j]) is None,
    ensures
        i == ws.len() ==> first_watcher_error(ws) is None,
        i < ws.len() && watcher_error(ws[i]) is Some ==> first_watcher_error(ws)
            == watcher_error(ws[i]),
    decreases i,
{
    if i == 0 {
    } else {
        assert(watcher_error(ws[0]) is None);
        lemma_first_watcher_error_at(ws.drop_first(), i - 1);
    }
}

proof fn lemma_first_dup_from_clean_prefix(s: Seq<Seq<char>>, i: int)
    requires
        0 <= i <= s.len(),
        forall|j: int| 0 <= j < i ==> !s.take(j).contains(s[j]),
    ensures
        i == s.len() ==> first_dup(s) is None,
        i < s.len() && s.take(i).contains(s[i]) ==> first_dup(s) == Some(s[i]),
    decreases i,
{
    assert forall|k: int| 0 <= k <= i implies first_dup_from(s, k) == first_dup_from(s, i) by {
        lemma_first_dup_from_step(s, k, i);
    }
}

proof fn lemma_first_dup_from_step(s: Seq<Seq<char>>, k: int, i: int)
    requires
        0 <= k <= i <= s.len(),
        forall|j: int| 0 <= j < i ==> !s.take(j).contains(s[j]),
    ensures
        first_dup_from(s, k) == first_dup_from(s, i),
    decreases i - k,
{
    if k < i {
        assert(!s.take(k).contains(s[k]));
        lemma_first_dup_from_step(s, k + 1, i);
    }
}

proof fn lemma_all_services_snoc(ws: Seq<Watcher>, i: int)
    requires
        0 <= i < ws.len(),
    ensures
        all_services(ws.take(i + 1)) == all_services(ws.take(i))
            + ws[i].docker_services.deep_view(),
{
    let t = ws.take(i + 1);
    assert(t.drop_last() =~= ws.take(i));
    assert(t.last() == ws[i]);
}

/// Checks the configuration: every watcher must carry a non-empty name,
/// token and service list, and no service token may occur twice across the
/// whole configuration.  The result pins down exactly which error message,
/// if any, the configuration produces.
pub fn validate_config(config: &Config) -> (r: Result<(), Error>)
    ensures
        match r {
            Ok(_) => first_watcher_error(config.watchers@) is None && first_dup(
                all_services(config.watchers@),
            ) is None,
            Err(e) => {
                ||| (first_watcher_error(config.watchers@) matches Some(m) && e@ == m)
                ||| (first_watcher_error(config.watchers@) is None && (first_dup(
                    all_services(config.watchers@),
                ) matches Some(nm) && e@ == msg_duplicate_service(nm)))
            },
        },
{
    let ghost ws = config.watchers@;
    let n = config.watchers.len();

    // Field-level checks, in configuration order.
    let mut i: usize = 0;
    while i < n
        invariant
            i <= n,
            n == ws.len(),
            ws == config.watchers@,
            forall|j: int| 0 <= j < i ==> watcher_error(#[trigger] ws[j]) is None,
        decreases n - i,
    {
        let w = &config.watchers[i];
        if w.name.as_str().is_empty() {
            proof {
                lemma_first_watcher_error_at(ws, i as int);
            }
            return Err(Error::new("Configuration error: watcher name cannot be empty"));
        }
        if w.doppler_token.as_str().is_empty() {
            proof {
                lemma_first_watcher_error_at(ws, i as int);
            }
            return Err(Error::new("Configuration error: doppler token cannot be empty"));
        }
        if w.docker_services.len() == 0 {
            proof {
                lemma_first_watcher_error_at(ws, i as int);
            }
            return Err(Error::new("Configuration error: docker services cannot be empty"));
        }
        i += 1;
    }
    proof {
        lemma_first_watcher_error_at(ws, n as int);
    }

    // Flatten every watcher's tokens, in order.
    let mut flat: Vec<String> = Vec::new();
    let mut wi: usize = 0;
    while wi < n
        invariant
            wi <= n,
            n == ws.len(),
            ws == config.watchers@,
            flat.deep_view() == all_services(ws.take(wi as int)),
        decreases n - wi,
    {
        let services = &config.watchers[wi].docker_services;
        let k = services.len();
        let mut si: usize = 0;
        while si < k
            invariant
                si <= k,
                wi < n,
                n == ws.len(),
                ws == config.watchers@,
                k == services@.len(),
                services@ == ws[wi as int].docker_services@,
                flat.deep_view() == all_services(ws.take(wi as int))
                    + services.deep_view().take(si as int),
            decreases k - si,
        {
            let s = services[si].clone();
            let ghost pre = flat.deep_view();
            proof {
                assert(s@ == services.deep_view()[si as int]);
            }
            flat.push(s);
            proof {
                assert(flat.deep_view() =~= pre.push(services.deep_view()[si as int]));
                assert(services.deep_view().take(si as int + 1) =~= services.deep_view().take(
                    si as int,
                ).push(services.deep_view()[si as int]));
                assert(flat.deep_view() =~= all_services(ws.take(wi as int))
                    + services.deep_view().take(si as int + 1));
            }
            si += 1;
        }
        proof {
            assert(services.deep_view().take(k as int) =~= services.deep_view());
            lemma_all_services_snoc(ws, wi as int);
        }
        wi += 1;
    }
    proof {
        assert(ws.take(n as int) =~= ws);
    }

    // Scan for the first token already claimed earlier.
    let ghost all = all_services(ws);
    let fl = flat.len();
    let mut di: usize = 0;
    while di < fl
        invariant
            di <= fl,
            flat.deep_view() == all,
            fl == all.len(),
            all == all_services(config.watchers@),
            first_watcher_error(config.watchers@) is None,
            forall|j: int| 0 <= j < di ==> !all.take(j).contains(#[trigger] all[j]),
        decreases fl - di,
    {
        let mut dj: usize = 0;
        while dj < di
            invariant
                dj <= di < fl,
                flat.deep_view() == all,
                fl == all.len(),
                all == all_services(config.watchers@),
                first_watcher_error(config.watchers@) is None,
                forall|j: int| 0 <= j < di ==> !all.take(j).contains(#[trigger] all[j]),
                forall|j: int| 0 <= j < dj ==> all[j] != all[di as int],
            decreases di - dj,
        {
            if flat[dj] == flat[di] {
                proof {
                    assert(all[dj as int] == all[di as int]);
                    assert(all.take(di as int)[dj as int] == all[dj as int]);
                    assert(all.take(di as int).contains(all[di as int]));
                    lemma_first_dup_from_clean_prefix(all, di as int);
                }
                let mut msg = String::from_str("Configuration error: service ");
                msg.append(flat[di].as_str());
                msg.append(" is used in multiple watchers");
                proof {
                    assert(flat@[di as int]@ == all[di as int]);
                    assert(msg@ == msg_duplicate_service(all[di as int]));
                }
                return Err(Error::new(msg.as_str()));
            }
            dj += 1;
        }
        proof {
            assert forall|j: int| 0 <= j < di + 1 implies !all.take(j).contains(
                #[trigger] all[j],
            ) by {
                if j == di {
                    if all.take(j).contains(all[j]) {
                        let w = choose|w: int|
                            0 <= w < j && all.take(j)[w] == all[j];
                        assert(all[w] == all[di as int]);
                    }
                }
            }
        }
        di += 1;
    }
    proof {
        lemma_first_dup_from_clean_prefix(all, fl as int);
    }
    Ok(())
}

} // verus!

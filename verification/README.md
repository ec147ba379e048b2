# oxidyze

A multi-threaded TCP connect scanner and LAN recon tool. Its logic is a
library whose behaviour is stated in contracts and proved by Verus; the
program around it does the I/O.

> **Scope:** only scan hosts and networks you own or have written
> authorization to test.

## Layout

| Path | Contents |
| --- | --- |
| `src/text.rs` | texts as sequences of characters |
| `src/net.rs` | IPv4 addresses and CIDR blocks |
| `src/sort.rs` | sorting and removing repeats |
| `src/maps.rs` | tables keyed by addresses |
| `src/cli.rs` | argument and port-list parsing |
| `src/scan.rs` | work lists, scan results, host discovery |
| `src/dns.rs` | PTR / mDNS messages, lookup order, resolver discovery |
| `src/arp.rs` | ARP and neighbor table parsing |
| `src/banner.rs` | banner cleaning, well-known-port guesses |
| `src/table.rs` | text table rendering |
| `src/report.rs` | mode decisions and output |
| `app/` | sockets, threads, commands and files, and `main` |
| `tests/` | tests of the library |

Functions state what they return over spec functions, most of them in the same
module. The one exception is `dns::transaction_id`, whose result is left to
chance and the clock.
What holds of several functions together stands at the end of each module, as
public proof functions whose names begin with `law_`.

# adblock

An engine that blocks network requests and hides page elements by the rules of
filter lists, written in Verus: what its functions return is stated in their
contracts and proved.

- `src/engine.rs` is what callers use: load rules, check requests, ask what to hide
  on a page, switch tags, add resources, save and load.
- `src/blocker.rs` decides on requests; `src/filters/network.rs`, `network_parser.rs`
  and `pattern.rs` hold the rules that it goes by, `src/optimizer.rs` joins similar
  ones.
- `src/cosmetic_filter_cache.rs` decides what is done to pages, by the rules of
  `src/filters/cosmetic.rs`; `src/resources.rs` holds the scripts to inject and the
  answers to give in place of blocked resources.
- `src/lists.rs` reads filter lists, `src/request.rs` and `src/url_parser.rs` take
  addresses apart.
- `src/data_format.rs` saves engines and loads them, in two formats, on top of
  `src/layout.rs`, `src/codec.rs` and `src/msgpack.rs`.
- `src/laws.rs` and `src/list_laws.rs` state what holds of every engine: which
  requests are blocked, what tags, joined rules and kept lines change and what they
  do not, which rules exist, which resources are found, and that no generic selector
  is missed.
- `src/outside.rs` holds the calls into other crates. Their contracts are believed,
  not proved: the public suffix list (`addr`), the ASCII form of domain names (`idna`,
  with the tables that `idna_adapter` picks), regular expressions (`regex`), Base64
  (`base64`) and gzip (`flate2`).

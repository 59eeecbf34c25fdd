# load_balancer

A round-robin HTTP load balancer with a sliding-window rate limiter and
periodic health checks, written in Verus.

- `src/` is the verified library:
  - `args.rs` — the command-line options as plain data (`load_balancer_command`,
    equal to the spec `declared_command`), read by clap against that data
    (`parse_arguments`), the numbers then read by `u64`/`i64::from_str`;
  - `interpreter.rs` — request heads (`HttpRequest::from_string`, `update_structure`);
  - `text.rs` — lines, words, separators and substring search over characters;
  - `response.rs` — response texts (`generator`, error and rejection responses) and
    the step a client connection takes next (forward, retry, reply or close);
  - `responder.rs` — decoding a request buffer;
  - `rate_limiting.rs` — `RequestWindow` and the shared `SlidingWindowRateLimiter`.
    A `RequestWindow` never counts more requests than the limit allows, and
    `allow_request_at` follows the window model (`after_request`) exactly; the law
    that no span of the window lets more requests through than the limit is proved
    over that model. Copies of a `SlidingWindowRateLimiter` share one `RequestWindow`,
    whose contents are not stated while it is shared;
  - `load_balancer.rs` — `round_robin_step`, which follows the round-robin model
    (`pick`, `advance`) over which the law that `n` steps pick each of `n` servers
    once is proved; `IndexHolder` (a counter shared by its copies, stepped by
    `round_robin_step`); `LoadBalancer`: round-robin choice, rate limiting,
    dead-server records and health-check results, with their laws;
  - `clock.rs` — the machine clock the rate limiter reads.
- `app/` is the program around it: sockets, threads, logging and the process
  arguments.
- `tests/` runs the library on concrete cases.

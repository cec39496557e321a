# Surch

A desktop tool that indexes drives or folders and finds files and folders by name.

- `src/` is the verified core. `index` files paths under their names and answers
  queries, `score`, `double` and `distance` say how well a name answers a query, `ranking` puts
  results in order, `skip` keeps the list of names that are not searched, and `surch` is
  the search window, event by event. `laws` and `surch::laws` state what holds of the
  whole.
- `app/` is the program around it: the window on the screen, the threads that walk the
  drives, the clipboard and the files on disk.
- `tests/` runs the core on concrete values.

Scores are numbers in double precision. The core holds them in integers (`double`), so
that their order is verified; the program turns them into floating-point numbers where
it shows them.
